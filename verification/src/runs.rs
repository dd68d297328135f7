//! Whole operations: the calls come in a fixed order, the pool is read once and
//! before any token moves, and the caller's limits are kept.

use crate::conservation::{
    awaits_read, balance, carried_by, held_by, is_view, law_resume_conserves, law_resume_fits,
    law_start_conserves, law_start_fits, lemma_deposit_fits, step_fits,
};
use crate::pool::{details_of, field_at, pair_matches, state_with_fee};
use crate::protocol::{is_static_call, Job, Pending, PoolState, Reply, Step, ZapMessage};
use crate::transfers::{
    law_aggregate_keeps_totals, lemma_total_concat, lemma_total_single, total_of, without,
};
use crate::types::{capped, AlkaneId, AlkaneTransfer, CallResponse, ZapError};
use crate::zap::{begins_job, continues, job_pool, resumes, starts};
use crate::zap_in::{deposit_after, deposit_parcel, swap_received, zap_in_payout};
use crate::zap_out::{output_refusal, withdrawn};
use vstd::prelude::*;

verus! {

/// One call of an operation: the step that asked for it, and what it returned.
pub struct Round {
    pub asked: Step,
    pub response: CallResponse,
}

/// Whether an operation gets to `step` when its calls return what `rounds` says.
pub open spec fn reaches(
    message: ZapMessage,
    height: u64,
    incoming: Seq<AlkaneTransfer>,
    rounds: Seq<Round>,
    step: Step,
) -> bool
    decreases rounds.len(),
{
    if rounds.len() == 0 {
        starts(step, message, height, incoming)
    } else {
        let last = rounds.last();
        &&& reaches(message, height, incoming, rounds.drop_last(), last.asked)
        &&& last.asked is Ask
        &&& resumes(step, last.asked->pending, Reply::Returned { response: last.response })
    }
}

/// How much of `id` the calls of an operation took along.
pub open spec fn sent_in(rounds: Seq<Round>, id: AlkaneId) -> nat
    decreases rounds.len(),
{
    if rounds.len() == 0 {
        0
    } else {
        sent_in(rounds.drop_last(), id) + carried_by(rounds.last().asked->action, id)
    }
}

/// How much of `id` the calls of an operation brought. A read brings nothing.
pub open spec fn received_in(rounds: Seq<Round>, id: AlkaneId) -> nat
    decreases rounds.len(),
{
    if rounds.len() == 0 {
        0
    } else {
        received_in(rounds.drop_last(), id) + (if rounds.last().asked->action is StaticCall {
            0
        } else {
            total_of(rounds.last().response.alkanes@, id)
        })
    }
}

/// The notes are consistent all along an operation.
proof fn lemma_run_fits(
    message: ZapMessage,
    height: u64,
    incoming: Seq<AlkaneTransfer>,
    rounds: Seq<Round>,
    step: Step,
)
    requires
        reaches(message, height, incoming, rounds, step),
    ensures
        step_fits(step),
    decreases rounds.len(),
{
    if rounds.len() == 0 {
        law_start_fits(step, message, height, incoming);
    } else {
        let last = rounds.last();
        lemma_run_fits(message, height, incoming, rounds.drop_last(), last.asked);
        law_resume_fits(step, last.asked->pending, last.response);
    }
}

/// No token is lost or made over a whole operation: what it hands to the caller
/// at the end, or holds and sends along on the way, together with what its calls
/// took, is what came in together with what its calls brought.
pub proof fn law_run_conserves(
    message: ZapMessage,
    height: u64,
    incoming: Seq<AlkaneTransfer>,
    rounds: Seq<Round>,
    step: Step,
    id: AlkaneId,
)
    requires
        reaches(message, height, incoming, rounds, step),
        !(step is Revert),
        !is_view(message),
        forall|t: AlkaneId| #[trigger]
            total_of(incoming, t) + received_in(rounds, t) <= u128::MAX,
    ensures
        balance(step, id) + sent_in(rounds, id) == total_of(incoming, id) + received_in(rounds, id),
    decreases rounds.len(),
{
    if rounds.len() == 0 {
        assert forall|t: AlkaneId| #[trigger] total_of(incoming, t) <= u128::MAX by {
            assert(total_of(incoming, t) + received_in(rounds, t) <= u128::MAX);
        }
        law_start_conserves(step, message, height, incoming, id);
    } else {
        let last = rounds.last();
        let before = rounds.drop_last();
        let pending = last.asked->pending;
        lemma_run_fits(message, height, incoming, before, last.asked);
        assert forall|t: AlkaneId| #[trigger]
            total_of(incoming, t) + received_in(before, t) <= u128::MAX by {
            assert(total_of(incoming, t) + received_in(rounds, t) <= u128::MAX);
        }
        assert forall|t: AlkaneId| #[trigger]
            held_by(pending, t) + (if awaits_read(pending) {
                0
            } else {
                total_of(last.response.alkanes@, t)
            }) <= u128::MAX by {
            law_run_conserves(message, height, incoming, before, last.asked, t);
            assert(total_of(incoming, t) + received_in(rounds, t) <= u128::MAX);
        }
        if awaits_read(pending) {
            assert forall|t: AlkaneId| #[trigger] held_by(pending, t) <= u128::MAX by {}
        } else {
            assert forall|t: AlkaneId|
                held_by(pending, t) + #[trigger] total_of(last.response.alkanes@, t)
                    <= u128::MAX by {
                assert(held_by(pending, t) + (if awaits_read(pending) {
                    0
                } else {
                    total_of(last.response.alkanes@, t)
                }) <= u128::MAX);
            }
        }
        law_resume_conserves(step, pending, last.response, id);
        law_run_conserves(message, height, incoming, before, last.asked, id);
    }
}

/// The job that a message sets, for those that need the pool's snapshot.
pub open spec fn job_of(message: ZapMessage) -> Option<Job> {
    match message {
        ZapMessage::ZapIn { pool, input_token, output_token, amount_in, min_lp_tokens, .. } => Some(
            Job::ZapIn { pool, input_token, output_token, amount_in, min_lp_tokens },
        ),
        ZapMessage::ZapInForExactLp {
            pool,
            input_token,
            output_token,
            lp_out,
            amount_in_max,
            ..
        } => Some(Job::ZapInForExactLp { pool, input_token, output_token, lp_out, amount_in_max }),
        ZapMessage::ZapOut { pool, output_token, liquidity, min_out, .. } => Some(
            Job::ZapOut { pool, output_token, liquidity, min_out },
        ),
        ZapMessage::ZapOutForExactOut { pool, output_token, output_amount, max_lp, .. } => Some(
            Job::ZapOutForExactOut { pool, output_token, output_amount, max_lp },
        ),
        _ => None,
    }
}

/// The snapshot that the first two replies of an operation make up.
pub open spec fn snapshot(rounds: Seq<Round>) -> PoolState {
    state_with_fee(
        details_of(rounds[0].response.data@),
        field_at(rounds[1].response.data@, 0),
    )
}

/// The pair of a zap: its input and its output.
pub open spec fn zap_pair(job: Job) -> Option<(AlkaneId, AlkaneId)> {
    match job {
        Job::ZapIn { input_token, output_token, .. } => Some((input_token, output_token)),
        Job::ZapInForExactLp { input_token, output_token, .. } => Some((input_token, output_token)),
        _ => None,
    }
}

/// The output of an unzap.
pub open spec fn unzap_token(job: Job) -> Option<AlkaneId> {
    match job {
        Job::ZapOut { output_token, .. } => Some(output_token),
        Job::ZapOutForExactOut { output_token, .. } => Some(output_token),
        _ => None,
    }
}

/// The least that the caller accepts, in liquidity for a zap and in the output
/// token for an unzap.
pub open spec fn minimum(job: Job) -> u128 {
    match job {
        Job::ZapIn { min_lp_tokens, .. } => min_lp_tokens,
        Job::ZapInForExactLp { lp_out, .. } => lp_out,
        Job::ZapOut { min_out, .. } => min_out,
        Job::ZapOutForExactOut { output_amount, .. } => output_amount,
    }
}

/// The most that the caller spends, in the input token for a zap and in
/// liquidity for an unzap.
pub open spec fn limit(job: Job) -> u128 {
    match job {
        Job::ZapIn { amount_in, .. } => amount_in,
        Job::ZapInForExactLp { amount_in_max, .. } => amount_in_max,
        Job::ZapOut { liquidity, .. } => liquidity,
        Job::ZapOutForExactOut { max_lp, .. } => max_lp,
    }
}

/// Whether a zap's input and output are two tokens.
spec fn tokens_differ(job: Job) -> bool {
    zap_pair(job) matches Some((input, output)) ==> input != output
}

/// What an operation that asks for its next call has got to after `rounds`.
pub closed spec fn is_on_track(message: ZapMessage, rounds: Seq<Round>, step: Step) -> bool {
    let job = job_of(message)->0;
    step matches Step::Ask { action, pending } ==> match pending {
        Pending::Details { job: kept, .. } => {
            &&& rounds.len() == 0
            &&& job_of(message) == Some(kept)
            &&& tokens_differ(job)
            &&& is_static_call(action, job_pool(job), seq![999u128])
        },
        Pending::Fee { job: kept, details, .. } => {
            &&& rounds.len() == 1
            &&& job_of(message) == Some(kept)
            &&& tokens_differ(job)
            &&& details == details_of(rounds[0].response.data@)
            &&& is_static_call(action, job_pool(job), seq![20u128])
            &&& forall|t: AlkaneId| #[trigger] sent_in(rounds, t) == 0
        },
        Pending::Swap { swap } => {
            &&& rounds.len() == 2
            &&& job_of(message) is Some
            &&& tokens_differ(job)
            &&& zap_pair(job) == Some((swap.input_token, swap.output_token))
            &&& pair_matches(swap.input_token, swap.output_token, snapshot(rounds))
            &&& swap.state == snapshot(rounds)
            &&& swap.pool == job_pool(job)
            &&& swap.min_lp_tokens == minimum(job)
            &&& swap.have_input + swap.swap_amount <= limit(job)
            &&& sent_in(rounds, swap.input_token) == 0
            &&& carried_by(action, swap.input_token) == swap.swap_amount
            &&& action is Call
        },
        Pending::Deposit { deposit } => {
            &&& rounds.len() == 3
            &&& job_of(message) is Some
            &&& tokens_differ(job)
            &&& zap_pair(job) == Some((deposit.input_token, deposit.output_token))
            &&& pair_matches(deposit.input_token, deposit.output_token, snapshot(rounds))
            &&& deposit.pool == job_pool(job)
            &&& deposit.min_lp_tokens == minimum(job)
            &&& sent_in(rounds, deposit.input_token) + carried_by(action, deposit.input_token)
                + deposit.residual_input <= limit(job)
            &&& action is Call
        },
        Pending::Burn { burn } => {
            &&& rounds.len() == 2
            &&& job_of(message) is Some
            &&& unzap_token(job) == Some(burn.output_token)
            &&& output_refusal(burn.output_token, snapshot(rounds)) is None
            &&& burn.state == snapshot(rounds)
            &&& burn.pool == job_pool(job)
            &&& burn.min_out == minimum(job)
            &&& carried_by(action, burn.pool) <= limit(job)
            &&& job is ZapOut ==> carried_by(action, burn.pool) == limit(job)
            &&& action is Call
        },
        Pending::Unzap { unzap } => {
            &&& rounds.len() == 3
            &&& job_of(message) is Some
            &&& unzap_token(job) == Some(unzap.output_token)
            &&& output_refusal(unzap.output_token, snapshot(rounds)) is None
            &&& unzap.min_out == minimum(job)
            &&& action is Call
        },
        Pending::Forwarded { .. } => {
            &&& rounds.len() == 0
            &&& message is Stake || message is Bond
            &&& action is Call
        },
    }
}

/// A job that begins is on track.
proof fn lemma_job_on_track(message: ZapMessage, rounds: Seq<Round>, step: Step, job: Job)
    requires
        rounds.len() == 2,
        job_of(message) == Some(job),
        tokens_differ(job),
        forall|t: AlkaneId| #[trigger] sent_in(rounds, t) == 0,
        exists|incoming: Seq<AlkaneTransfer>| #[trigger]
            begins_job(step, job, snapshot(rounds), incoming),
    ensures
        is_on_track(message, rounds, step),
{
    let incoming = choose|incoming: Seq<AlkaneTransfer>| #[trigger]
        begins_job(step, job, snapshot(rounds), incoming);
    if step is Ask {
        match step->pending {
            Pending::Swap { swap } => {
                let sent = AlkaneTransfer { id: swap.input_token, value: swap.swap_amount };
                lemma_total_single(sent, swap.input_token);
                assert(sent_in(rounds, swap.input_token) == 0);
            },
            Pending::Burn { burn } => {
                let burned = step->action->parcel@[0];
                lemma_total_single(burned, burn.pool);
            },
            _ => {},
        }
    }
}

/// A zap that goes on to its deposit is on track.
proof fn lemma_deposit_on_track(message: ZapMessage, rounds: Seq<Round>, step: Step)
    requires
        rounds.len() == 3,
        rounds.last().asked is Ask,
        rounds.last().asked->pending is Swap,
        is_on_track(message, rounds.drop_last(), rounds.last().asked),
        step_fits(rounds.last().asked),
        continues(step, rounds.last().asked->pending, rounds.last().response),
    ensures
        is_on_track(message, rounds, step),
{
    let before = rounds.drop_last();
    let asked = rounds.last().asked;
    let swap = asked->pending->swap;
    let received = rounds.last().response.alkanes@;
    assert(snapshot(before) == snapshot(rounds));
    if step is Ask {
        let got = swap_received(swap, received);
        let planned = deposit_after(swap, got);
        lemma_deposit_fits(swap, got);
        let parcel = deposit_parcel(swap, planned);
        lemma_total_single(parcel[0], swap.input_token);
        lemma_total_single(parcel[1], swap.input_token);
        assert(parcel =~= seq![parcel[0]] + seq![parcel[1]]);
        lemma_total_concat(seq![parcel[0]], seq![parcel[1]], swap.input_token);
    }
}

/// An operation is on track all along, and ends with its fourth reply.
pub proof fn lemma_run_on_track(
    message: ZapMessage,
    height: u64,
    incoming: Seq<AlkaneTransfer>,
    rounds: Seq<Round>,
    step: Step,
)
    requires
        reaches(message, height, incoming, rounds, step),
    ensures
        is_on_track(message, rounds, step),
        rounds.len() <= 4,
        step is Ask && (step->pending is Swap || step->pending is Burn) ==> rounds.len() == 2
            && job_of(message) is Some,
    decreases rounds.len(),
{
    if rounds.len() > 0 {
        let last = rounds.last();
        let before = rounds.drop_last();
        lemma_run_on_track(message, height, incoming, before, last.asked);
        lemma_run_fits(message, height, incoming, before, last.asked);
        match last.asked->pending {
            Pending::Details { .. } => {
                assert forall|t: AlkaneId| #[trigger] sent_in(rounds, t) == 0 by {
                    assert(sent_in(before, t) == 0);
                }
            },
            Pending::Fee { job, details, incoming: held } => {
                assert forall|t: AlkaneId| #[trigger] sent_in(rounds, t) == 0 by {
                    assert(sent_in(before, t) == 0);
                }
                assert(before[0] == rounds[0]);
                if last.response.data.len() >= 16 {
                    assert(begins_job(step, job, snapshot(rounds), held@));
                    lemma_job_on_track(message, rounds, step, job);
                }
            },
            Pending::Swap { .. } => {
                lemma_deposit_on_track(message, rounds, step);
            },
            Pending::Burn { .. } => {
                assert(snapshot(before) == snapshot(rounds));
            },
            _ => {},
        }
    }
}

/// An operation makes at most four calls.
pub proof fn law_at_most_four_calls(
    message: ZapMessage,
    height: u64,
    incoming: Seq<AlkaneTransfer>,
    rounds: Seq<Round>,
    step: Step,
)
    requires
        reaches(message, height, incoming, rounds, step),
    ensures
        rounds.len() <= 4,
        step is Ask ==> rounds.len() <= 3,
{
    lemma_run_on_track(message, height, incoming, rounds, step);
}

/// An operation that needs the pool reads it exactly once and first: its first
/// call asks for the pool's description, its second for the pool's fee, and
/// every later call carries tokens. The others read nothing.
pub proof fn law_pool_read_once(
    message: ZapMessage,
    height: u64,
    incoming: Seq<AlkaneTransfer>,
    rounds: Seq<Round>,
    step: Step,
)
    requires
        reaches(message, height, incoming, rounds, step),
        step is Ask,
    ensures
        match job_of(message) {
            Some(job) => {
                &&& rounds.len() == 0 ==> is_static_call(
                    step->action,
                    job_pool(job),
                    seq![999u128],
                )
                &&& rounds.len() == 1 ==> is_static_call(step->action, job_pool(job), seq![20u128])
                &&& rounds.len() >= 2 ==> step->action is Call
            },
            None => step->action is Call,
        },
{
    lemma_run_on_track(message, height, incoming, rounds, step);
}

/// A pair that is not the pool's, and an output that the pool does not have, are
/// refused before any token moves: a zap or unzap that asks for a call with
/// tokens has read the snapshot and found its tokens there.
pub proof fn law_pair_checked_first(
    message: ZapMessage,
    height: u64,
    incoming: Seq<AlkaneTransfer>,
    rounds: Seq<Round>,
    step: Step,
)
    requires
        reaches(message, height, incoming, rounds, step),
        step is Ask,
        step->action is Call,
        job_of(message) is Some,
    ensures
        rounds.len() >= 2,
        zap_pair(job_of(message)->0) matches Some((input, output)) ==> input != output
            && pair_matches(input, output, snapshot(rounds)),
        unzap_token(job_of(message)->0) matches Some(output) ==> output_refusal(
            output,
            snapshot(rounds),
        ) is None,
{
    lemma_run_on_track(message, height, incoming, rounds, step);
}

/// What the caller gets at the end of an operation.
pub open spec fn delivered(job: Job, response: CallResponse) -> nat {
    match unzap_token(job) {
        Some(output) => total_of(response.alkanes@, output),
        None => total_of(response.alkanes@, job_pool(job)),
    }
}

/// An operation that succeeds delivers at least the caller's minimum: a zap in
/// liquidity, an unzap in its output token. For a target, the minimum is the
/// target.
pub proof fn law_minimum_met(
    message: ZapMessage,
    height: u64,
    incoming: Seq<AlkaneTransfer>,
    rounds: Seq<Round>,
    step: Step,
)
    requires
        reaches(message, height, incoming, rounds, step),
        step is Done,
        job_of(message) is Some,
    ensures
        delivered(job_of(message)->0, step->response) >= minimum(job_of(message)->0),
{
    let job = job_of(message)->0;
    let last = rounds.last();
    let received = last.response.alkanes@;
    let out = step->response.alkanes@;
    lemma_run_on_track(message, height, incoming, rounds.drop_last(), last.asked);
    match last.asked->pending {
        Pending::Deposit { deposit } => {
            let lp = capped(total_of(received, deposit.pool));
            let first = seq![AlkaneTransfer { id: deposit.pool, value: lp }];
            let payout = zap_in_payout(deposit, received);
            assert(payout =~= first + payout.skip(1));
            lemma_total_concat(first, payout.skip(1), deposit.pool);
            lemma_total_single(first[0], deposit.pool);
            law_aggregate_keeps_totals(payout, out, deposit.pool);
        },
        Pending::Unzap { unzap } => {
            let got = capped(total_of(received, unzap.output_token));
            let total = capped((unzap.own_side + got) as nat);
            let first = seq![AlkaneTransfer { id: unzap.output_token, value: total }];
            let rest = unzap.leftovers@ + without(received, unzap.output_token);
            lemma_total_concat(first, rest, unzap.output_token);
            lemma_total_single(first[0], unzap.output_token);
            law_aggregate_keeps_totals(first + rest, out, unzap.output_token);
        },
        Pending::Burn { burn } => {
            let (amt_a, amt_b, others) = withdrawn(burn, received);
            let (unwanted, own) = if burn.output_token == burn.state.token_a {
                (AlkaneTransfer { id: burn.state.token_b, value: amt_b }, amt_a)
            } else {
                (AlkaneTransfer { id: burn.state.token_a, value: amt_a }, amt_b)
            };
            let first = seq![AlkaneTransfer { id: burn.output_token, value: own }];
            let rest = burn.leftovers@ + others + seq![unwanted];
            lemma_total_concat(first, rest, burn.output_token);
            lemma_total_single(first[0], burn.output_token);
            law_aggregate_keeps_totals(first + rest, out, burn.output_token);
        },
        _ => {},
    }
}

/// A zap never takes more of its input along than the caller allowed, over all
/// its calls: `amount_in` for a zap, `amount_in_max` for a liquidity target.
pub proof fn law_zap_spends_within_limit(
    message: ZapMessage,
    height: u64,
    incoming: Seq<AlkaneTransfer>,
    rounds: Seq<Round>,
    step: Step,
    input_token: AlkaneId,
    output_token: AlkaneId,
)
    requires
        reaches(message, height, incoming, rounds, step),
        job_of(message) is Some,
        zap_pair(job_of(message)->0) == Some((input_token, output_token)),
    ensures
        sent_in(rounds, input_token) + (if step is Ask {
            carried_by(step->action, input_token)
        } else {
            0
        }) <= limit(job_of(message)->0),
    decreases rounds.len(),
{
    lemma_run_on_track(message, height, incoming, rounds, step);
    if rounds.len() > 0 {
        law_zap_spends_within_limit(
            message,
            height,
            incoming,
            rounds.drop_last(),
            rounds.last().asked,
            input_token,
            output_token,
        );
    }
}

/// An unzap burns exactly the liquidity that the caller named, and for an output
/// target no more than the caller allowed: that much goes along with its third
/// call, the first one with tokens.
pub proof fn law_unzap_burns_within_limit(
    message: ZapMessage,
    height: u64,
    incoming: Seq<AlkaneTransfer>,
    rounds: Seq<Round>,
    step: Step,
)
    requires
        reaches(message, height, incoming, rounds, step),
        step is Ask,
        rounds.len() == 2,
        message is ZapOut || message is ZapOutForExactOut,
    ensures
        ({
            let job = job_of(message)->0;
            &&& carried_by(step->action, job_pool(job)) <= limit(job)
            &&& message is ZapOut ==> carried_by(step->action, job_pool(job)) == limit(job)
        }),
{
    lemma_run_on_track(message, height, incoming, rounds, step);
}

/// Staking and bonding take exactly the liquidity that the caller named along.
pub proof fn law_forwards_exact_liquidity(
    message: ZapMessage,
    height: u64,
    incoming: Seq<AlkaneTransfer>,
    step: Step,
)
    requires
        starts(step, message, height, incoming),
        step is Ask,
        message is Stake || message is Bond,
    ensures
        match message {
            ZapMessage::Stake { pool, liquidity, .. } => carried_by(step->action, pool)
                == liquidity,
            ZapMessage::Bond { pool, liquidity, .. } => carried_by(step->action, pool) == liquidity,
            _ => false,
        },
{
    let parcel = step->action->parcel@;
    lemma_total_single(parcel[0], parcel[0].id);
}

/// The deadline of an operation that changes anything.
pub open spec fn deadline_of(message: ZapMessage) -> Option<u128> {
    match message {
        ZapMessage::ZapIn { deadline, .. } => Some(deadline),
        ZapMessage::ZapInForExactLp { deadline, .. } => Some(deadline),
        ZapMessage::ZapOut { deadline, .. } => Some(deadline),
        ZapMessage::ZapOutForExactOut { deadline, .. } => Some(deadline),
        ZapMessage::Stake { deadline, .. } => Some(deadline),
        ZapMessage::Bond { deadline, .. } => Some(deadline),
        _ => None,
    }
}

/// Every operation with a deadline is refused at once when the block height has
/// exceeded it, and only then for this reason; a deadline of zero never expires.
pub proof fn law_deadline(
    message: ZapMessage,
    height: u64,
    incoming: Seq<AlkaneTransfer>,
    step: Step,
    deadline: u128,
)
    requires
        starts(step, message, height, incoming),
        deadline_of(message) == Some(deadline),
    ensures
        step == (Step::Revert { error: ZapError::Expired { height, deadline } }) <==> deadline != 0
            && height > deadline,
{
}

/// A call that fails fails the operation as a failed call, whatever it was made for,
/// and so does a pool whose answer to the fee query is too short: no fee is ever
/// assumed.
pub proof fn law_failed_call_reverts(step: Step, pending: Pending, reply: Reply)
    requires
        resumes(step, pending, reply),
        reply is Failed || (pending is Fee && reply->response.data.len() < 16),
    ensures
        step is Revert,
        reply is Failed ==> step->error == ZapError::CallFailed,
{
}

} // verus!
