//! What each operation does, over the message, the bytes that the pool answered,
//! the tokens that came and went, and the calls that were made.
//!
//! The laws say what a caller and a pool can see. Where they name a number that has
//! to be worked out, `arithmetic_laws` says which number it is.

use crate::amm_laws::{law_exact_lp_never_undershoots, law_inverse_covers_target};
use crate::amm_logic::{
    exact_lp_amount, inverse_amount, inverse_swap, is_first_to_mint, lemma_first_to_mint,
    lemma_optimal_split_exists, lemma_swap_out_below_reserve, lemma_tried_first,
    lemma_tried_monotone, optimal_split, planned_deposit, pool_mint, predicted_lp, swap_out,
    tried_amount, unzap_liquidity,
};
use crate::arithmetic_laws::{
    is_deposit, is_mint, is_payout, is_split, law_deposit, law_exact_lp_refusal,
    law_inverse_unzap_refusal, law_inverse_zap, law_mint, law_prediction, law_search_finds_first,
    law_split, law_swap_output, lemma_payout_unique, share,
};
use crate::pool::pair_in_order;
use crate::protocol::{Action, BurnPending, PoolState, Step, SwapPending, ZapMessage};
use crate::runs::{job_of, lemma_run_on_track, reaches, snapshot, Round};
use crate::transfers::{change_of, lemma_total_without, total_of, without};
use crate::types::{capped, AlkaneId, AlkaneTransfer, ZapError};
use crate::value_laws::{
    is_tidy, law_aggregate, law_bytes_make_up_word, law_extraction, law_field_is_word, word,
};
use crate::zap::{begins_job, starts};
use crate::zap_in::{
    begins_zap_in, continues_zap_in, deposit_after, deposit_parcel, exact_lp_input, swap_received,
    zap_in_payout,
};
use crate::zap_out::{continues_zap_out, exact_out_liquidity, withdrawn};
use vstd::prelude::*;

verus! {

/// What a pool said of itself.
pub struct PoolFacts {
    pub token_a: AlkaneId,
    pub token_b: AlkaneId,
    pub reserve_a: u128,
    pub reserve_b: u128,
    pub supply: u128,
    pub fee: u128,
}

/// The facts in a pool's two answers: seven numbers in the first, the fee at the
/// beginning of the second.
pub open spec fn facts(details: Seq<u8>, fee: Seq<u8>) -> PoolFacts {
    PoolFacts {
        token_a: AlkaneId { block: word(details, 0) as u128, tx: word(details, 16) as u128 },
        token_b: AlkaneId { block: word(details, 32) as u128, tx: word(details, 48) as u128 },
        reserve_a: word(details, 64) as u128,
        reserve_b: word(details, 80) as u128,
        supply: word(details, 96) as u128,
        fee: word(fee, 0) as u128,
    }
}

/// The facts that an operation has read.
pub open spec fn facts_in(rounds: Seq<Round>) -> PoolFacts {
    facts(rounds[0].response.data@, rounds[1].response.data@)
}

/// Whether a snapshot is what the pool said.
pub open spec fn agrees(state: PoolState, f: PoolFacts) -> bool {
    &&& state.token_a == f.token_a
    &&& state.token_b == f.token_b
    &&& state.reserve_a == f.reserve_a
    &&& state.reserve_b == f.reserve_b
    &&& state.total_supply == f.supply
    &&& state.fee_per_1000 == f.fee
}

/// Whether two tokens are the pool's pair, in either order.
pub open spec fn is_pair(one: AlkaneId, two: AlkaneId, f: PoolFacts) -> bool {
    (one == f.token_a && two == f.token_b) || (one == f.token_b && two == f.token_a)
}

/// The reserve of one of the pool's tokens.
pub open spec fn reserve_of(token: AlkaneId, f: PoolFacts) -> u128 {
    if token == f.token_a {
        f.reserve_a
    } else {
        f.reserve_b
    }
}

/// The pool's other token.
pub open spec fn other_than(token: AlkaneId, f: PoolFacts) -> AlkaneId {
    if token == f.token_a {
        f.token_b
    } else {
        f.token_a
    }
}

/// The lesser of a sum and the largest 128-bit value.
pub open spec fn at_most_max(n: int) -> int {
    if n > u128::MAX {
        u128::MAX as int
    } else {
        n
    }
}

/// What is left of a reserve, and nothing where more was taken.
pub open spec fn left_of(reserve: int, taken: int) -> int {
    if taken > reserve {
        0
    } else {
        reserve - taken
    }
}

/// Whether a step asks the pool to swap `paid` of `sold` for `out` of `bought`, and
/// for nothing of the other token: the pool takes what it is asked for in its
/// first and second token as the second and third argument.
pub open spec fn asks_swap(
    step: Step,
    pool: AlkaneId,
    sold: AlkaneId,
    paid: int,
    bought: AlkaneId,
    out: int,
    f: PoolFacts,
) -> bool {
    &&& step matches Step::Ask { action: Action::Call { cellpack, parcel }, .. }
    &&& cellpack.target == pool
    &&& cellpack.inputs@.len() == 6
    &&& cellpack.inputs@[0] == 3
    &&& cellpack.inputs@[1] == (if bought == f.token_a {
        out
    } else {
        0
    })
    &&& cellpack.inputs@[2] == (if bought == f.token_a {
        0
    } else {
        out
    })
    &&& cellpack.inputs@[3] == 0
    &&& cellpack.inputs@[4] == 0
    &&& cellpack.inputs@[5] == 0
    &&& parcel@.len() == 1
    &&& parcel@[0].id == sold
    &&& parcel@[0].value == paid
}

/// Whether a step asks for a call with one token along.
pub open spec fn asks_call_with(
    step: Step,
    target: AlkaneId,
    inputs: Seq<u128>,
    token: AlkaneId,
    value: int,
) -> bool {
    &&& step matches Step::Ask { action: Action::Call { cellpack, parcel }, .. }
    &&& cellpack.target == target
    &&& cellpack.inputs@ =~= inputs
    &&& parcel@.len() == 1
    &&& parcel@[0].id == token
    &&& parcel@[0].value == value
}

/// Whether a step asks for a read with one argument.
pub open spec fn asks_read(step: Step, target: AlkaneId, opcode: u128) -> bool {
    &&& step matches Step::Ask { action: Action::StaticCall { cellpack }, .. }
    &&& cellpack.target == target
    &&& cellpack.inputs@.len() == 1
    &&& cellpack.inputs@[0] == opcode
}

/// Whether a step ends an operation with a tidy list and a number as data.
pub open spec fn ends_with(step: Step, number: int) -> bool {
    &&& step matches Step::Done { response }
    &&& is_tidy(response.alkanes@)
    &&& response.data@.len() == 16
    &&& word(response.data@, 0) == number
}

/// The first token that a call takes along.
pub open spec fn first_sent(step: Step) -> AlkaneTransfer {
    step->action->parcel@[0]
}

/// Whether a step refuses an amount that cannot be taken from what is there, and
/// says why.
pub open spec fn refuses_input(step: Step, token: AlkaneId, amount: u128, there: nat) -> bool {
    &&& amount == 0 ==> step == (Step::Revert { error: ZapError::ZeroAmountIn })
    &&& amount > 0 && there == 0 ==> step == (Step::Revert {
        error: ZapError::InputMissing { token },
    })
    &&& 0 < there < amount ==> step == (Step::Revert {
        error: ZapError::InputExceedsReceived { required: amount, received: there as u128, token },
    })
}

/// A snapshot is made of the words of the pool's two answers.
proof fn lemma_snapshot_agrees(rounds: Seq<Round>)
    requires
        rounds.len() >= 2,
        rounds[0].response.data.len() >= 112,
        rounds[1].response.data.len() >= 16,
    ensures
        agrees(snapshot(rounds), facts_in(rounds)),
{
    let d = rounds[0].response.data@;
    law_field_is_word(d, 0);
    law_field_is_word(d, 16);
    law_field_is_word(d, 32);
    law_field_is_word(d, 48);
    law_field_is_word(d, 64);
    law_field_is_word(d, 80);
    law_field_is_word(d, 96);
    law_field_is_word(rounds[1].response.data@, 0);
}

/// The message's height is within its deadline, or it has none.
pub open spec fn in_time(height: u64, deadline: u128) -> bool {
    deadline == 0 || height <= deadline
}

/// An operation starts by reading the pool, is refused, or forwards at once. A
/// zap is refused exactly where it has expired or its two tokens are one.
pub proof fn law_zap_in_starts(
    message: ZapMessage,
    height: u64,
    incoming: Seq<AlkaneTransfer>,
    step: Step,
)
    requires
        starts(step, message, height, incoming),
        message is ZapIn,
    ensures
        ({
            let deadline = message->ZapIn_deadline;
            let pool = message->ZapIn_pool;
            let same = message->ZapIn_input_token == message->ZapIn_output_token;
            &&& asks_read(step, pool, 999) <==> in_time(height, deadline) && !same
            &&& !in_time(height, deadline) ==> step == (Step::Revert {
                error: ZapError::Expired { height, deadline },
            })
            &&& in_time(height, deadline) && same ==> step == (Step::Revert {
                error: ZapError::SameTokens,
            })
        }),
{
}

/// A zap for a liquidity target is refused at once exactly where it has expired,
/// its two tokens are one, or its target or its limit is zero.
pub proof fn law_exact_lp_starts(
    message: ZapMessage,
    height: u64,
    incoming: Seq<AlkaneTransfer>,
    step: Step,
)
    requires
        starts(step, message, height, incoming),
        message is ZapInForExactLp,
    ensures
        ({
            let deadline = message->ZapInForExactLp_deadline;
            let pool = message->ZapInForExactLp_pool;
            let timely = in_time(height, deadline);
            let same = message->ZapInForExactLp_input_token
                == message->ZapInForExactLp_output_token;
            let lp_out = message->ZapInForExactLp_lp_out;
            let max = message->ZapInForExactLp_amount_in_max;
            &&& asks_read(step, pool, 999) <==> timely && !same && lp_out > 0 && max > 0
            &&& !timely ==> step == (Step::Revert { error: ZapError::Expired { height, deadline } })
            &&& timely && same ==> step == (Step::Revert { error: ZapError::SameTokens })
            &&& timely && !same && lp_out == 0 ==> step == (Step::Revert {
                error: ZapError::ZeroLpOut,
            })
            &&& timely && !same && lp_out > 0 && max == 0 ==> step == (Step::Revert {
                error: ZapError::ZeroAmountInMax,
            })
        }),
{
}

/// An unzap is refused at once exactly where it has expired or burns nothing.
pub proof fn law_zap_out_starts(
    message: ZapMessage,
    height: u64,
    incoming: Seq<AlkaneTransfer>,
    step: Step,
)
    requires
        starts(step, message, height, incoming),
        message is ZapOut,
    ensures
        ({
            let deadline = message->ZapOut_deadline;
            let timely = in_time(height, deadline);
            let liquidity = message->ZapOut_liquidity;
            &&& asks_read(step, message->ZapOut_pool, 999) <==> timely && liquidity > 0
            &&& !timely ==> step == (Step::Revert { error: ZapError::Expired { height, deadline } })
            &&& timely && liquidity == 0 ==> step == (Step::Revert {
                error: ZapError::ZeroLiquidity,
            })
        }),
{
}

/// An unzap for an output target is refused at once exactly where it has expired,
/// or its target or its limit is zero.
pub proof fn law_exact_out_starts(
    message: ZapMessage,
    height: u64,
    incoming: Seq<AlkaneTransfer>,
    step: Step,
)
    requires
        starts(step, message, height, incoming),
        message is ZapOutForExactOut,
    ensures
        ({
            let deadline = message->ZapOutForExactOut_deadline;
            let timely = in_time(height, deadline);
            let wanted = message->ZapOutForExactOut_output_amount;
            let max = message->ZapOutForExactOut_max_lp;
            &&& asks_read(step, message->ZapOutForExactOut_pool, 999) <==> timely && wanted > 0
                && max > 0
            &&& !timely ==> step == (Step::Revert { error: ZapError::Expired { height, deadline } })
            &&& timely && wanted == 0 ==> step == (Step::Revert {
                error: ZapError::ZeroOutputAmount,
            })
            &&& timely && wanted > 0 && max == 0 ==> step == (Step::Revert {
                error: ZapError::ZeroMaxLp,
            })
        }),
{
}

/// A lock duration of none, a week, a month, three months, half a year or a year.
pub open spec fn is_lock_tier(blocks: u128) -> bool {
    exists|i: int| 0 <= i < 6 && blocks == #[trigger] lock_tiers()[i]
}

/// The lock durations that staking offers, in blocks.
pub open spec fn lock_tiers() -> Seq<u128> {
    seq![0u128, 1_050u128, 4_375u128, 13_125u128, 26_250u128, 52_500u128]
}

/// A stake locks the caller's liquidity for the caller's own duration: where it is
/// not refused it calls the named contract with opcode 1, the message's lock
/// duration and the message's liquidity, and exactly that liquidity along. It is
/// refused exactly where it has expired, the duration is not one of those offered,
/// or there is nothing or not enough to stake.
pub proof fn law_stake(
    message: ZapMessage,
    height: u64,
    incoming: Seq<AlkaneTransfer>,
    step: Step,
)
    requires
        starts(step, message, height, incoming),
        message is Stake,
    ensures
        ({
            let deadline = message->Stake_deadline;
            let timely = in_time(height, deadline);
            let lock = message->Stake_lock_duration;
            let liquidity = message->Stake_liquidity;
            let pool = message->Stake_pool;
            let there = total_of(incoming, pool);
            &&& asks_call_with(
                step,
                message->Stake_staking,
                seq![1u128, lock, liquidity],
                pool,
                liquidity as int,
            ) <==> timely && is_lock_tier(lock) && 0 < liquidity <= there
            &&& !timely ==> step == (Step::Revert { error: ZapError::Expired { height, deadline } })
            &&& timely && !is_lock_tier(lock) ==> step == (Step::Revert {
                error: ZapError::InvalidLockDuration { lock_duration: lock },
            })
            &&& timely && is_lock_tier(lock) && liquidity == 0 ==> step == (Step::Revert {
                error: ZapError::ZeroLiquidity,
            })
            &&& timely && is_lock_tier(lock) && liquidity > 0 ==> refuses_input(
                step,
                pool,
                liquidity,
                there,
            )
        }),
{
    let lock = message->Stake_lock_duration;
    law_extraction(incoming, message->Stake_pool, message->Stake_liquidity);
    lemma_lock_tiers(lock);
}

/// The offered durations are the six.
proof fn lemma_lock_tiers(lock: u128)
    ensures
        is_lock_tier(lock) <==> lock == 0 || lock == 1_050 || lock == 4_375 || lock == 13_125
            || lock == 26_250 || lock == 52_500,
{
    let tiers = lock_tiers();
    assert(tiers[0] == 0 && tiers[1] == 1_050 && tiers[2] == 4_375 && tiers[3] == 13_125
        && tiers[4] == 26_250 && tiers[5] == 52_500);
}

/// A bond asks for the caller's own minimum: where it is not refused it calls the
/// named contract with opcode 1, the message's liquidity and the message's least
/// payout, and exactly that liquidity along.
pub proof fn law_bond(
    message: ZapMessage,
    height: u64,
    incoming: Seq<AlkaneTransfer>,
    step: Step,
)
    requires
        starts(step, message, height, incoming),
        message is Bond,
    ensures
        ({
            let deadline = message->Bond_deadline;
            let timely = in_time(height, deadline);
            let liquidity = message->Bond_liquidity;
            let pool = message->Bond_pool;
            let there = total_of(incoming, pool);
            &&& asks_call_with(
                step,
                message->Bond_bonding,
                seq![1u128, liquidity, message->Bond_min_fire_out],
                pool,
                liquidity as int,
            ) <==> timely && 0 < liquidity <= there
            &&& !timely ==> step == (Step::Revert { error: ZapError::Expired { height, deadline } })
            &&& timely && liquidity == 0 ==> step == (Step::Revert {
                error: ZapError::ZeroLiquidity,
            })
            &&& timely && liquidity > 0 ==> refuses_input(step, pool, liquidity, there)
        }),
{
    law_extraction(incoming, message->Bond_pool, message->Bond_liquidity);
}

/// A stake or bond that got a reply succeeds. Its data is the forwarded amount in
/// sixteen bytes, and then what the other contract said.
pub proof fn law_forwarding_ends(
    message: ZapMessage,
    height: u64,
    incoming: Seq<AlkaneTransfer>,
    rounds: Seq<Round>,
    step: Step,
)
    requires
        reaches(message, height, incoming, rounds, step),
        message is Stake || message is Bond,
        rounds.len() == 1,
    ensures
        step is Done,
        is_tidy(step->response.alkanes@),
        ({
            let liquidity = if message is Stake {
                message->Stake_liquidity
            } else {
                message->Bond_liquidity
            };
            let said = rounds[0].response.data@;
            let data = step->response.data@;
            &&& data.len() == 16 + said.len()
            &&& word(data, 0) == liquidity
            &&& forall|i: int| 0 <= i < said.len() ==> data[16 + i] == #[trigger] said[i]
        }),
{
    reveal_with_fuel(reaches, 2);
    let last = rounds.last();
    let lp = last.asked->pending->lp_amount;
    let held = last.asked->pending->leftovers@;
    law_bytes_make_up_word(lp);
    law_aggregate(
        last.response.alkanes@ + held,
        step->response.alkanes@,
        AlkaneId { block: 0, tx: 0 },
    );
}

/// A forward hands back exactly what came in, and the two views say the name and
/// where it was made, letter by letter.
pub proof fn law_forward_and_views(
    message: ZapMessage,
    height: u64,
    incoming: Seq<AlkaneTransfer>,
    step: Step,
)
    requires
        starts(step, message, height, incoming),
        message is Forward || message is GetName || message is MadeIn,
    ensures
        step is Done,
        message is Forward ==> step->response.alkanes@ == incoming && step->response.data@.len()
            == 0,
        message is GetName ==> step->response.alkanes@.len() == 0 && step->response.data@
            =~= seq![90u8, 105u8, 112u8, 112u8, 111u8],
        message is MadeIn ==> step->response.alkanes@.len() == 0 && step->response.data@ =~= seq![
            87u8,
            105u8,
            110u8,
            110u8,
            105u8,
            112u8,
            101u8,
            103u8,
        ],
{
}

/// What a message is about, in the pool.
pub open spec fn pool_asked(message: ZapMessage) -> AlkaneId {
    match message {
        ZapMessage::ZapIn { pool, .. } => pool,
        ZapMessage::ZapInForExactLp { pool, .. } => pool,
        ZapMessage::ZapOut { pool, .. } => pool,
        ZapMessage::ZapOutForExactOut { pool, .. } => pool,
        ZapMessage::Stake { pool, .. } => pool,
        ZapMessage::Bond { pool, .. } => pool,
        _ => AlkaneId { block: 0, tx: 0 },
    }
}

/// Whether a message is a zap or an unzap.
pub open spec fn uses_pool(message: ZapMessage) -> bool {
    message is ZapIn || message is ZapInForExactLp || message is ZapOut
        || message is ZapOutForExactOut
}

/// The pool's description is taken exactly where it holds seven numbers; the fee
/// is then asked of the same pool.
pub proof fn law_after_details(
    message: ZapMessage,
    height: u64,
    incoming: Seq<AlkaneTransfer>,
    rounds: Seq<Round>,
    step: Step,
)
    requires
        reaches(message, height, incoming, rounds, step),
        uses_pool(message),
        rounds.len() == 1,
    ensures
        rounds[0].response.data.len() >= 112 ==> asks_read(step, pool_asked(message), 20),
        rounds[0].response.data.len() < 112 ==> step == (Step::Revert {
            error: ZapError::PoolDetailsTooShort { length: rounds[0].response.data.len() },
        }),
{
    reveal_with_fuel(reaches, 2);
}

/// A fee is taken exactly where it fills sixteen bytes.
pub proof fn law_after_short_fee(
    message: ZapMessage,
    height: u64,
    incoming: Seq<AlkaneTransfer>,
    rounds: Seq<Round>,
    step: Step,
)
    requires
        reaches(message, height, incoming, rounds, step),
        uses_pool(message),
        rounds.len() == 2,
        rounds[1].response.data.len() < 16,
    ensures
        step == (Step::Revert {
            error: ZapError::FeeResponseTooShort { length: rounds[1].response.data.len() },
        }),
{
    reveal_with_fuel(reaches, 3);
    let first = rounds.drop_last();
    assert(first.last() == rounds[0]);
}

/// With both answers there, the job begins on what the pool said.
proof fn lemma_job_begins(
    message: ZapMessage,
    height: u64,
    incoming: Seq<AlkaneTransfer>,
    rounds: Seq<Round>,
    step: Step,
)
    requires
        reaches(message, height, incoming, rounds, step),
        uses_pool(message),
        rounds.len() == 2,
        rounds[1].response.data.len() >= 16,
    ensures
        job_of(message) is Some,
        begins_job(step, job_of(message)->0, snapshot(rounds), incoming),
        agrees(snapshot(rounds), facts_in(rounds)),
        starts(rounds[0].asked, message, height, incoming),
        rounds[0].asked is Ask,
{
    reveal_with_fuel(reaches, 3);
    let first = rounds.drop_last();
    assert(first.last() == rounds[0]);
    assert(first.drop_last() =~= Seq::empty());
    lemma_snapshot_agrees(rounds);
}

/// An operation computes with what the pool answered, and with nothing else: the
/// snapshot that it keeps while its swap or its withdrawal is under way holds the
/// seven numbers of the first answer and the fee of the second, byte for byte.
pub proof fn law_snapshot_is_the_answer(
    message: ZapMessage,
    height: u64,
    incoming: Seq<AlkaneTransfer>,
    rounds: Seq<Round>,
    step: Step,
)
    requires
        reaches(message, height, incoming, rounds, step),
        step is Ask,
        step->pending is Swap || step->pending is Burn,
    ensures
        rounds.len() == 2,
        ({
            let d = rounds[0].response.data@;
            let state = if step->pending is Swap {
                step->pending->swap.state
            } else {
                step->pending->burn.state
            };
            &&& state.token_a.block == word(d, 0) && state.token_a.tx == word(d, 16)
            &&& state.token_b.block == word(d, 32) && state.token_b.tx == word(d, 48)
            &&& state.reserve_a == word(d, 64)
            &&& state.reserve_b == word(d, 80)
            &&& state.total_supply == word(d, 96)
            &&& state.fee_per_1000 == word(rounds[1].response.data@, 0)
        }),
{
    lemma_run_on_track(message, height, incoming, rounds, step);
    if rounds[1].response.data.len() < 16 {
        law_after_short_fee(message, height, incoming, rounds, step);
    }
    lemma_job_begins(message, height, incoming, rounds, step);
    let d = rounds[0].response.data@;
    reveal_with_fuel(reaches, 3);
    assert(rounds.drop_last().last() == rounds[0]);
    law_field_is_word(d, 0);
    law_field_is_word(d, 16);
    law_field_is_word(d, 32);
    law_field_is_word(d, 48);
    law_field_is_word(d, 64);
    law_field_is_word(d, 80);
    law_field_is_word(d, 96);
    law_field_is_word(rounds[1].response.data@, 0);
}

/// Whether a zap of `amount` can go to its swap: its tokens are the pool's pair, in
/// either order, both reserves are there, the amount has come in, the fee leaves
/// something to trade, and at least one unit can be swapped.
pub open spec fn can_zap(
    input: AlkaneId,
    output: AlkaneId,
    amount: int,
    f: PoolFacts,
    incoming: Seq<AlkaneTransfer>,
) -> bool {
    let r = reserve_of(input, f);
    &&& is_pair(input, output, f)
    &&& f.reserve_a > 0
    &&& f.reserve_b > 0
    &&& 0 < amount <= total_of(incoming, input)
    &&& f.fee < 1000
    &&& (1000 - f.fee) * (r + 1) <= 1000 * r * (amount - 1)
}

/// Whether a step begins the zap of `amount`: it sells the balancing part of the
/// amount for what the pool owes for it.
pub open spec fn sells_split(
    step: Step,
    pool: AlkaneId,
    input: AlkaneId,
    output: AlkaneId,
    amount: int,
    s: int,
    out: int,
    f: PoolFacts,
) -> bool {
    &&& asks_swap(step, pool, input, s, output, out, f)
    &&& is_split(s, amount, reserve_of(input, f) as int, f.fee as nat)
    &&& is_payout(
        out,
        s,
        reserve_of(input, f) as int,
        reserve_of(output, f) as int,
        f.fee as nat,
    )
}

/// A zap of an amount begins exactly where it can, with the balancing swap.
proof fn lemma_zap_begins(
    step: Step,
    pool: AlkaneId,
    input: AlkaneId,
    output: AlkaneId,
    amount: u128,
    min: u128,
    state: PoolState,
    f: PoolFacts,
    incoming: Seq<AlkaneTransfer>,
) -> (r: (int, int))
    requires
        begins_zap_in(step, pool, input, output, amount, min, state, incoming),
        agrees(state, f),
        input != output,
    ensures
        can_zap(input, output, amount as int, f, incoming) ==> r.0 > 0 && sells_split(
            step,
            pool,
            input,
            output,
            amount as int,
            r.0,
            r.1,
            f,
        ),
        !can_zap(input, output, amount as int, f, incoming) ==> step is Revert,
        !is_pair(input, output, f) ==> step == (Step::Revert {
            error: ZapError::PairMismatch {
                input,
                output,
                token_a: f.token_a,
                token_b: f.token_b,
            },
        }),
        is_pair(input, output, f) && (f.reserve_a == 0 || f.reserve_b == 0) ==> step
            == (Step::Revert { error: ZapError::PoolNotSeeded }),
        is_pair(input, output, f) && f.reserve_a > 0 && f.reserve_b > 0 ==> refuses_input(
            step,
            input,
            amount,
            total_of(incoming, input),
        ),
        is_pair(input, output, f) && f.reserve_a > 0 && f.reserve_b > 0 && 0 < amount <= total_of(
            incoming,
            input,
        ) && !can_zap(input, output, amount as int, f, incoming) ==> step == (Step::Revert {
            error: ZapError::AmountTooSmallToSplit,
        }),
        step is Ask ==> {
            let swap = step->pending->swap;
            &&& step->pending is Swap
            &&& swap.pool == pool
            &&& swap.input_token == input
            &&& swap.output_token == output
            &&& swap.min_lp_tokens == min
            &&& swap.state == state
            &&& swap.input_is_a == (input == f.token_a)
            &&& swap.swap_amount == r.0
            &&& swap.have_input == amount - r.0
            &&& swap.leftovers@ == change_of(incoming, input, amount)
        },
{
    let input_is_a = pair_in_order(input, output, state);
    let r = reserve_of(input, f);
    let fee = f.fee as nat;
    let s = optimal_split(amount as nat, r as nat, fee);
    law_extraction(incoming, input, amount);
    law_split(amount as nat, r as nat, fee);
    let a = share(fee);
    let out = swap_out(s, r as nat, reserve_of(output, f) as nat, fee);
    if is_pair(input, output, f) && amount > 0 && r > 0 && fee < 1000 {
        lemma_optimal_split_exists(amount as nat, r as nat, fee);
        law_swap_output(s, r as nat, reserve_of(output, f) as nat, fee);
        if reserve_of(output, f) > 0 {
            lemma_swap_out_below_reserve(s, r as nat, reserve_of(output, f) as nat, fee);
        }
        lemma_one_unit(s as int, amount as int, r as int, a);
    }
    (s as int, out as int)
}

/// Something is swapped exactly where one unit can be.
proof fn lemma_one_unit(s: int, amount: int, r: int, a: int)
    requires
        0 <= s < amount,
        r > 0,
        a > 0,
        s * a * (r + s) <= 1000 * r * (amount - s),
        (s + 1) * a * (r + (s + 1)) > 1000 * r * (amount - (s + 1)),
    ensures
        s > 0 <==> a * (r + 1) <= 1000 * r * (amount - 1),
{
    if s > 0 {
        assert(a * (r + 1) <= s * a * (r + s)) by (nonlinear_arith)
            requires
                s >= 1,
                a > 0,
                r > 0,
        ;
        assert(1000 * r * (amount - s) <= 1000 * r * (amount - 1)) by (nonlinear_arith)
            requires
                s >= 1,
                r > 0,
        ;
    } else {
        assert((s + 1) * a * (r + (s + 1)) == a * (r + 1)) by (nonlinear_arith)
            requires
                s == 0,
        ;
    }
}

/// A zap goes to its swap exactly where it can: it sells the part of the amount
/// that balances the deposit, in the pool's other token and at what the pool owes
/// for it. It is refused everywhere else, before any token moves.
pub proof fn law_zap_in_swaps(
    message: ZapMessage,
    height: u64,
    incoming: Seq<AlkaneTransfer>,
    rounds: Seq<Round>,
    step: Step,
)
    requires
        reaches(message, height, incoming, rounds, step),
        message is ZapIn,
        rounds.len() == 2,
        rounds[1].response.data.len() >= 16,
    ensures
        ({
            let f = facts_in(rounds);
            let pool = message->ZapIn_pool;
            let input = message->ZapIn_input_token;
            let output = message->ZapIn_output_token;
            let amount = message->ZapIn_amount_in as int;
            &&& input != output
            &&& can_zap(input, output, amount, f, incoming) ==> exists|s: int, out: int|
                s > 0 && #[trigger] sells_split(step, pool, input, output, amount, s, out, f)
            &&& !can_zap(input, output, amount, f, incoming) ==> step is Revert
            &&& !is_pair(input, output, f) ==> step == (Step::Revert {
                error: ZapError::PairMismatch {
                    input,
                    output,
                    token_a: f.token_a,
                    token_b: f.token_b,
                },
            })
            &&& is_pair(input, output, f) && (f.reserve_a == 0 || f.reserve_b == 0) ==> step
                == (Step::Revert { error: ZapError::PoolNotSeeded })
            &&& is_pair(input, output, f) && f.reserve_a > 0 && f.reserve_b > 0 ==> {
                &&& refuses_input(
                    step,
                    input,
                    message->ZapIn_amount_in,
                    total_of(incoming, input),
                )
                &&& 0 < amount <= total_of(incoming, input) && !can_zap(
                    input,
                    output,
                    amount,
                    f,
                    incoming,
                ) ==> step == (Step::Revert { error: ZapError::AmountTooSmallToSplit })
            }
        }),
{
    lemma_job_begins(message, height, incoming, rounds, step);
    let f = facts_in(rounds);
    let r = lemma_zap_begins(
        step,
        message->ZapIn_pool,
        message->ZapIn_input_token,
        message->ZapIn_output_token,
        message->ZapIn_amount_in,
        message->ZapIn_min_lp_tokens,
        snapshot(rounds),
        f,
        incoming,
    );
}

/// The inputs that are tried for a liquidity target, at what the pool said.
pub open spec fn tried_for(k: nat, lp_out: u128, input: AlkaneId, f: PoolFacts) -> nat {
    tried_amount(
        k,
        lp_out as nat,
        reserve_of(input, f) as nat,
        f.supply as nat,
        f.fee as nat,
    )
}

/// Whether a zap of `amount` mints at least `lp_out`, at what the pool said.
pub open spec fn mints(
    amount: nat,
    lp_out: u128,
    input: AlkaneId,
    output: AlkaneId,
    f: PoolFacts,
) -> bool {
    predicted_lp(
        amount,
        reserve_of(input, f) as nat,
        reserve_of(output, f) as nat,
        f.supply as nat,
        f.fee as nat,
    ) >= lp_out
}

/// A liquidity target is accepted: whenever the tokens are the pool's pair, in
/// either order, reserves and supply are there, the fee leaves something to trade,
/// and one of the inputs that are tried mints the target, is within the limit and
/// has come in, the zap goes to its swap. The input that it takes is the first of
/// the tried ones that mints the target.
pub proof fn law_exact_lp_accepts(
    message: ZapMessage,
    height: u64,
    incoming: Seq<AlkaneTransfer>,
    rounds: Seq<Round>,
    step: Step,
    k: nat,
)
    requires
        reaches(message, height, incoming, rounds, step),
        message is ZapInForExactLp,
        rounds.len() == 2,
        rounds[1].response.data.len() >= 16,
        ({
            let f = facts_in(rounds);
            let input = message->ZapInForExactLp_input_token;
            let output = message->ZapInForExactLp_output_token;
            let lp_out = message->ZapInForExactLp_lp_out;
            let amount = tried_for(k, lp_out, input, f);
            &&& is_pair(input, output, f)
            &&& f.reserve_a > 0
            &&& f.reserve_b > 0
            &&& f.supply > 0
            &&& f.fee < 1000
            &&& mints(amount, lp_out, input, output, f)
            &&& amount <= message->ZapInForExactLp_amount_in_max
            &&& amount <= total_of(incoming, input)
        }),
    ensures
        ({
            let f = facts_in(rounds);
            let pool = message->ZapInForExactLp_pool;
            let input = message->ZapInForExactLp_input_token;
            let output = message->ZapInForExactLp_output_token;
            let lp_out = message->ZapInForExactLp_lp_out;
            exists|amount: int, s: int, out: int|
                {
                    &&& #[trigger] sells_split(step, pool, input, output, amount, s, out, f)
                    &&& s > 0
                    &&& 0 < amount <= tried_for(k, lp_out, input, f)
                    &&& mints(amount as nat, lp_out, input, output, f)
                }
        }),
{
    let f = facts_in(rounds);
    let input = message->ZapInForExactLp_input_token;
    let output = message->ZapInForExactLp_output_token;
    let lp_out = message->ZapInForExactLp_lp_out;
    let r_in = reserve_of(input, f) as nat;
    let r_out = reserve_of(output, f) as nat;
    let supply = f.supply as nat;
    let fee = f.fee as nat;
    lemma_job_begins(message, height, incoming, rounds, step);
    law_search_finds_first(k, lp_out as nat, r_in, r_out, supply, fee);
    law_exact_lp_refusal(lp_out as nat, r_in, r_out, supply, fee);
    law_inverse_zap(lp_out as nat, r_in, supply, fee);
    lemma_tried_from_closed(k, lp_out as nat, r_in, supply, fee);
    law_exact_lp_never_undershoots(lp_out as nat, r_in, r_out, supply, fee);
    let amount = exact_lp_input(input, output, lp_out, snapshot(rounds));
    lemma_minting_can_zap(amount, lp_out, input, output, f, incoming);
    let r = lemma_zap_begins(
        step,
        message->ZapInForExactLp_pool,
        input,
        output,
        amount,
        lp_out,
        snapshot(rounds),
        f,
        incoming,
    );
    assert(sells_split(
        step,
        message->ZapInForExactLp_pool,
        input,
        output,
        amount as int,
        r.0,
        r.1,
        f,
    ));
}

/// Every tried input is at least the closed form, and so is the part of it to swap.
proof fn lemma_tried_from_closed(
    k: nat,
    lp_out: nat,
    reserve_in: nat,
    total_supply: nat,
    fee: nat,
)
    requires
        lp_out > 0,
        reserve_in > 0,
        total_supply > 0,
        fee < 1000,
    ensures
        inverse_swap(lp_out, reserve_in, total_supply, fee)
            <= inverse_amount(lp_out, reserve_in, total_supply, fee)
            <= tried_amount(k, lp_out, reserve_in, total_supply, fee),
{
    lemma_tried_first(lp_out, reserve_in, total_supply, fee);
    lemma_tried_monotone(0, k, lp_out, reserve_in, total_supply, fee);
    law_inverse_covers_target(lp_out, reserve_in, total_supply, fee);
}

/// An input that mints something can be zapped.
proof fn lemma_minting_can_zap(
    amount: u128,
    lp_out: u128,
    input: AlkaneId,
    output: AlkaneId,
    f: PoolFacts,
    incoming: Seq<AlkaneTransfer>,
)
    requires
        is_pair(input, output, f),
        f.reserve_a > 0,
        f.reserve_b > 0,
        f.fee < 1000,
        lp_out > 0,
        mints(amount as nat, lp_out, input, output, f),
        amount <= total_of(incoming, input),
    ensures
        can_zap(input, output, amount as int, f, incoming),
{
    let r = reserve_of(input, f) as nat;
    let fee = f.fee as nat;
    let s = optimal_split(amount as nat, r, fee);
    law_split(amount as nat, r, fee);
    assert(s > 0);
    lemma_optimal_split_exists(amount as nat, r, fee);
    lemma_one_unit(s as int, amount as int, r as int, share(fee));
}

/// A liquidity target is refused where no tried input will do: a zap that goes to
/// its swap takes one of the tried inputs, which mints the target, is within the
/// limit and has come in.
pub proof fn law_exact_lp_takes_tried_input(
    message: ZapMessage,
    height: u64,
    incoming: Seq<AlkaneTransfer>,
    rounds: Seq<Round>,
    step: Step,
)
    requires
        reaches(message, height, incoming, rounds, step),
        message is ZapInForExactLp,
        rounds.len() == 2,
        !(step is Revert),
    ensures
        ({
            let f = facts_in(rounds);
            let pool = message->ZapInForExactLp_pool;
            let input = message->ZapInForExactLp_input_token;
            let output = message->ZapInForExactLp_output_token;
            let lp_out = message->ZapInForExactLp_lp_out;
            &&& is_pair(input, output, f)
            &&& f.supply > 0
            &&& f.fee < 1000
            &&& exists|k: nat, s: int, out: int|
                {
                    let amount = tried_for(k, lp_out, input, f);
                    &&& #[trigger] sells_split(
                        step,
                        pool,
                        input,
                        output,
                        tried_for(k, lp_out, input, f) as int,
                        s,
                        out,
                        f,
                    )
                    &&& mints(amount, lp_out, input, output, f)
                    &&& amount <= message->ZapInForExactLp_amount_in_max
                    &&& amount <= total_of(incoming, input)
                }
        }),
{
    if rounds[1].response.data.len() < 16 {
        law_after_short_fee(message, height, incoming, rounds, step);
    }
    let f = facts_in(rounds);
    let input = message->ZapInForExactLp_input_token;
    let output = message->ZapInForExactLp_output_token;
    let lp_out = message->ZapInForExactLp_lp_out;
    let r_in = reserve_of(input, f) as nat;
    let r_out = reserve_of(output, f) as nat;
    let supply = f.supply as nat;
    let fee = f.fee as nat;
    lemma_job_begins(message, height, incoming, rounds, step);
    law_exact_lp_refusal(lp_out as nat, r_in, r_out, supply, fee);
    law_exact_lp_never_undershoots(lp_out as nat, r_in, r_out, supply, fee);
    let k = choose|k: nat|
        is_first_to_mint(k, lp_out as nat, r_in, r_out, supply, fee);
    let amount = exact_lp_input(input, output, lp_out, snapshot(rounds));
    assert(amount == tried_for(k, lp_out, input, f));
    let r = lemma_zap_begins(
        step,
        message->ZapInForExactLp_pool,
        input,
        output,
        amount,
        lp_out,
        snapshot(rounds),
        f,
        incoming,
    );
    assert(sells_split(
        step,
        message->ZapInForExactLp_pool,
        input,
        output,
        tried_for(k, lp_out, input, f) as int,
        r.0,
        r.1,
        f,
    ));
}

/// A liquidity target that costs more than the limit is refused with what it costs:
/// the first of the tried inputs that mints it.
pub proof fn law_exact_lp_refuses_over_limit(
    message: ZapMessage,
    height: u64,
    incoming: Seq<AlkaneTransfer>,
    rounds: Seq<Round>,
    step: Step,
    k: nat,
)
    requires
        reaches(message, height, incoming, rounds, step),
        message is ZapInForExactLp,
        rounds.len() == 2,
        rounds[1].response.data.len() >= 16,
        ({
            let f = facts_in(rounds);
            let input = message->ZapInForExactLp_input_token;
            let output = message->ZapInForExactLp_output_token;
            let lp_out = message->ZapInForExactLp_lp_out;
            let amount = tried_for(k, lp_out, input, f);
            &&& is_pair(input, output, f)
            &&& f.reserve_a > 0
            &&& f.reserve_b > 0
            &&& f.supply > 0
            &&& f.fee < 1000
            &&& mints(amount, lp_out, input, output, f)
            &&& forall|j: nat|
                j < k ==> !mints(
                    #[trigger] tried_for(j, lp_out, input, f),
                    lp_out,
                    input,
                    output,
                    f,
                )
            &&& message->ZapInForExactLp_amount_in_max < amount <= u128::MAX
        }),
    ensures
        step == (Step::Revert {
            error: ZapError::AmountInExceedsMax {
                required: tried_for(
                    k,
                    message->ZapInForExactLp_lp_out,
                    message->ZapInForExactLp_input_token,
                    facts_in(rounds),
                ) as u128,
                max: message->ZapInForExactLp_amount_in_max,
            },
        }),
{
    let f = facts_in(rounds);
    let input = message->ZapInForExactLp_input_token;
    let output = message->ZapInForExactLp_output_token;
    let lp_out = message->ZapInForExactLp_lp_out;
    let r_in = reserve_of(input, f) as nat;
    let r_out = reserve_of(output, f) as nat;
    let supply = f.supply as nat;
    let fee = f.fee as nat;
    lemma_job_begins(message, height, incoming, rounds, step);
    assert forall|j: nat| j < k implies predicted_lp(
        #[trigger] tried_amount(j, lp_out as nat, r_in, supply, fee),
        r_in,
        r_out,
        supply,
        fee,
    ) < lp_out by {
        assert(!mints(tried_for(j, lp_out, input, f), lp_out, input, output, f));
    }
    assert(is_first_to_mint(k, lp_out as nat, r_in, r_out, supply, fee));
    lemma_first_to_mint(k, lp_out as nat, r_in, r_out, supply, fee);
    law_exact_lp_refusal(lp_out as nat, r_in, r_out, supply, fee);
    law_inverse_zap(lp_out as nat, r_in, supply, fee);
    lemma_tried_from_closed(k, lp_out as nat, r_in, supply, fee);
}

/// A liquidity target is refused with the reason that keeps it from being met: the
/// pair, the reserves, the supply, the fee, or that no input of 128 bits is found.
pub proof fn law_exact_lp_refusals(
    message: ZapMessage,
    height: u64,
    incoming: Seq<AlkaneTransfer>,
    rounds: Seq<Round>,
    step: Step,
)
    requires
        reaches(message, height, incoming, rounds, step),
        message is ZapInForExactLp,
        rounds.len() == 2,
        rounds[1].response.data.len() >= 16,
    ensures
        ({
            let f = facts_in(rounds);
            let input = message->ZapInForExactLp_input_token;
            let output = message->ZapInForExactLp_output_token;
            let lp_out = message->ZapInForExactLp_lp_out;
            let paired = is_pair(input, output, f);
            let seeded = paired && f.reserve_a > 0 && f.reserve_b > 0;
            let open = seeded && f.supply > 0 && f.fee < 1000;
            let s = inverse_swap(
                lp_out as nat,
                reserve_of(input, f) as nat,
                f.supply as nat,
                f.fee as nat,
            );
            &&& !paired ==> step == (Step::Revert {
                error: ZapError::PairMismatch {
                    input,
                    output,
                    token_a: f.token_a,
                    token_b: f.token_b,
                },
            })
            &&& paired && !seeded ==> step == (Step::Revert { error: ZapError::PoolNotSeeded })
            &&& seeded && f.supply == 0 ==> step == (Step::Revert {
                error: ZapError::ZeroTotalSupply,
            })
            &&& seeded && f.supply > 0 && f.fee >= 1000 ==> step == (Step::Revert {
                error: ZapError::FeeTooHigh,
            })
            &&& open && s > u128::MAX ==> step == (Step::Revert {
                error: ZapError::SwapAmountOverflow,
            })
            &&& open && s <= u128::MAX && (forall|k: nat|
                #[trigger] tried_for(k, lp_out, input, f) <= u128::MAX ==> !mints(
                    tried_for(k, lp_out, input, f),
                    lp_out,
                    input,
                    output,
                    f,
                )) ==> step == (Step::Revert { error: ZapError::AmountInOverflow })
        }),
{
    let f = facts_in(rounds);
    let input = message->ZapInForExactLp_input_token;
    let output = message->ZapInForExactLp_output_token;
    let lp_out = message->ZapInForExactLp_lp_out;
    let r_in = reserve_of(input, f) as nat;
    let r_out = reserve_of(output, f) as nat;
    let supply = f.supply as nat;
    let fee = f.fee as nat;
    lemma_job_begins(message, height, incoming, rounds, step);
    if exists|k: nat| is_first_to_mint(k, lp_out as nat, r_in, r_out, supply, fee) {
        let k = choose|k: nat| is_first_to_mint(k, lp_out as nat, r_in, r_out, supply, fee);
        assert(tried_for(k, lp_out, input, f) <= u128::MAX);
        assert(mints(tried_for(k, lp_out, input, f), lp_out, input, output, f));
    }
}

/// A liquidity target whose input has not come in is refused for it: the input that
/// is asked for is the first of the tried ones that mints the target.
pub proof fn law_exact_lp_needs_input(
    message: ZapMessage,
    height: u64,
    incoming: Seq<AlkaneTransfer>,
    rounds: Seq<Round>,
    step: Step,
    k: nat,
)
    requires
        reaches(message, height, incoming, rounds, step),
        message is ZapInForExactLp,
        rounds.len() == 2,
        rounds[1].response.data.len() >= 16,
        ({
            let f = facts_in(rounds);
            let input = message->ZapInForExactLp_input_token;
            let output = message->ZapInForExactLp_output_token;
            let lp_out = message->ZapInForExactLp_lp_out;
            let amount = tried_for(k, lp_out, input, f);
            &&& is_pair(input, output, f)
            &&& f.reserve_a > 0
            &&& f.reserve_b > 0
            &&& f.supply > 0
            &&& f.fee < 1000
            &&& mints(amount, lp_out, input, output, f)
            &&& forall|j: nat|
                j < k ==> !mints(
                    #[trigger] tried_for(j, lp_out, input, f),
                    lp_out,
                    input,
                    output,
                    f,
                )
            &&& amount <= message->ZapInForExactLp_amount_in_max
        }),
    ensures
        refuses_input(
            step,
            message->ZapInForExactLp_input_token,
            tried_for(
                k,
                message->ZapInForExactLp_lp_out,
                message->ZapInForExactLp_input_token,
                facts_in(rounds),
            ) as u128,
            total_of(incoming, message->ZapInForExactLp_input_token),
        ),
{
    let f = facts_in(rounds);
    let input = message->ZapInForExactLp_input_token;
    let output = message->ZapInForExactLp_output_token;
    let lp_out = message->ZapInForExactLp_lp_out;
    let r_in = reserve_of(input, f) as nat;
    let r_out = reserve_of(output, f) as nat;
    let supply = f.supply as nat;
    let fee = f.fee as nat;
    lemma_job_begins(message, height, incoming, rounds, step);
    assert forall|j: nat| j < k implies predicted_lp(
        #[trigger] tried_amount(j, lp_out as nat, r_in, supply, fee),
        r_in,
        r_out,
        supply,
        fee,
    ) < lp_out by {
        assert(!mints(tried_for(j, lp_out, input, f), lp_out, input, output, f));
    }
    assert(is_first_to_mint(k, lp_out as nat, r_in, r_out, supply, fee));
    lemma_first_to_mint(k, lp_out as nat, r_in, r_out, supply, fee);
    law_exact_lp_refusal(lp_out as nat, r_in, r_out, supply, fee);
    law_inverse_zap(lp_out as nat, r_in, supply, fee);
    lemma_tried_from_closed(k, lp_out as nat, r_in, supply, fee);
    let amount = tried_for(k, lp_out, input, f) as u128;
    lemma_zap_begins(
        step,
        message->ZapInForExactLp_pool,
        input,
        output,
        amount,
        lp_out,
        snapshot(rounds),
        f,
        incoming,
    );
}

/// What a zap spends: the caller's amount, or the input found for the caller's
/// target.
pub open spec fn zapped(message: ZapMessage, f: PoolFacts) -> int {
    match message {
        ZapMessage::ZapIn { amount_in, .. } => amount_in as int,
        ZapMessage::ZapInForExactLp { input_token, output_token, lp_out, .. } => exact_lp_amount(
            lp_out as nat,
            reserve_of(input_token, f) as nat,
            reserve_of(output_token, f) as nat,
            f.supply as nat,
            f.fee as nat,
        )->0 as int,
        _ => 0,
    }
}

/// The input of a zap.
pub open spec fn sold_by(message: ZapMessage) -> AlkaneId {
    if message is ZapIn {
        message->ZapIn_input_token
    } else {
        message->ZapInForExactLp_input_token
    }
}

/// The output of a zap.
pub open spec fn bought_by(message: ZapMessage) -> AlkaneId {
    if message is ZapIn {
        message->ZapIn_output_token
    } else {
        message->ZapInForExactLp_output_token
    }
}

/// The least liquidity that a zap accepts.
pub open spec fn least_minted(message: ZapMessage) -> u128 {
    if message is ZapIn {
        message->ZapIn_min_lp_tokens
    } else {
        message->ZapInForExactLp_lp_out
    }
}

/// A zap that got to its swap: what it is about and what it has kept.
pub proof fn lemma_zap_is_swapping(
    message: ZapMessage,
    height: u64,
    incoming: Seq<AlkaneTransfer>,
    rounds: Seq<Round>,
    step: Step,
) -> (r: (int, int))
    requires
        reaches(message, height, incoming, rounds, step),
        message is ZapIn || message is ZapInForExactLp,
        rounds.len() == 2,
        step is Ask,
    ensures
        ({
            let f = facts_in(rounds);
            let swap = step->pending->swap;
            &&& step->pending is Swap
            &&& sells_split(
                step,
                pool_asked(message),
                sold_by(message),
                bought_by(message),
                zapped(message, f),
                r.0,
                r.1,
                f,
            )
            &&& sold_by(message) != bought_by(message)
            &&& is_pair(sold_by(message), bought_by(message), f)
            &&& f.reserve_a > 0
            &&& f.reserve_b > 0
            &&& agrees(swap.state, f)
            &&& swap.pool == pool_asked(message)
            &&& swap.input_token == sold_by(message)
            &&& swap.output_token == bought_by(message)
            &&& swap.input_is_a == (sold_by(message) == f.token_a)
            &&& swap.min_lp_tokens == least_minted(message)
            &&& swap.swap_amount == r.0
            &&& swap.have_input == zapped(message, f) - r.0
            &&& swap.leftovers@ == change_of(incoming, sold_by(message), zapped(message, f) as u128)
            &&& 0 < zapped(message, f) <= total_of(incoming, sold_by(message))
            &&& zapped(message, f) <= u128::MAX
        }),
{
    if rounds[1].response.data.len() < 16 {
        law_after_short_fee(message, height, incoming, rounds, step);
    }
    let f = facts_in(rounds);
    lemma_job_begins(message, height, incoming, rounds, step);
    let input = sold_by(message);
    let output = bought_by(message);
    if message is ZapInForExactLp {
        law_exact_lp_never_undershoots(
            message->ZapInForExactLp_lp_out as nat,
            reserve_of(input, f) as nat,
            reserve_of(output, f) as nat,
            f.supply as nat,
            f.fee as nat,
        );
    }
    lemma_zap_begins(
        step,
        pool_asked(message),
        input,
        output,
        zapped(message, f) as u128,
        least_minted(message),
        snapshot(rounds),
        f,
        incoming,
    )
}

/// Whether a step asks for a deposit of `din` of the input and `dout` of the output,
/// each under its own token and in the pool's order.
pub open spec fn asks_deposit(
    step: Step,
    pool: AlkaneId,
    input: AlkaneId,
    din: int,
    dout: int,
    f: PoolFacts,
) -> bool {
    &&& step matches Step::Ask { action: Action::Call { cellpack, parcel }, .. }
    &&& cellpack.target == pool
    &&& cellpack.inputs@.len() == 1
    &&& cellpack.inputs@[0] == 1
    &&& parcel@.len() == 2
    &&& parcel@[0].id == f.token_a
    &&& parcel@[1].id == f.token_b
    &&& parcel@[0].value == (if input == f.token_a {
        din
    } else {
        dout
    })
    &&& parcel@[1].value == (if input == f.token_a {
        dout
    } else {
        din
    })
}

/// A zap goes on to its deposit.
proof fn lemma_deposit_follows(
    step: Step,
    swap: SwapPending,
    received: Seq<AlkaneTransfer>,
    f: PoolFacts,
) -> (r: (int, int))
    requires
        continues_zap_in(step, swap, received),
        agrees(swap.state, f),
        is_pair(swap.input_token, swap.output_token, f),
        swap.input_token != swap.output_token,
        swap.input_is_a == (swap.input_token == f.token_a),
        f.reserve_a > 0,
        f.reserve_b > 0,
    ensures
        ({
            let got = at_most_max(total_of(received, swap.output_token) as int);
            let new_in = at_most_max(reserve_of(swap.input_token, f) + swap.swap_amount);
            let new_out = left_of(reserve_of(swap.output_token, f) as int, got);
            &&& got == 0 ==> step == (Step::Revert { error: ZapError::SwapReturnedNothing })
            &&& got > 0 ==> {
                &&& is_deposit(r.0, r.1, swap.have_input as int, got, new_in, new_out)
                &&& r.0 > 0 && r.1 > 0 ==> asks_deposit(
                    step,
                    swap.pool,
                    swap.input_token,
                    r.0,
                    r.1,
                    f,
                )
                &&& r.0 == 0 || r.1 == 0 ==> step == (Step::Revert {
                    error: ZapError::DepositIsZero,
                })
            }
        }),
{
    let got = swap_received(swap, received);
    let reserve_in = reserve_of(swap.input_token, f);
    let reserve_out = reserve_of(swap.output_token, f);
    let new_in = capped((reserve_in + swap.swap_amount) as nat);
    let new_out: nat = if got > reserve_out {
        0
    } else {
        (reserve_out - got) as nat
    };
    let planned = planned_deposit(swap.have_input as nat, got as nat, new_in as nat, new_out);
    law_deposit(swap.have_input as nat, got as nat, new_in as nat, new_out);
    assert(planned == deposit_after(swap, got));
    if got > 0 && planned.0 > 0 && planned.1 > 0 {
        let parcel = step->action->parcel@;
        assert(parcel =~= deposit_parcel(swap, planned));
        assert(parcel[0] == deposit_parcel(swap, planned)[0]);
        assert(parcel[1] == deposit_parcel(swap, planned)[1]);
        assert(step->action->Call_cellpack.inputs@ =~= seq![1u128]);
    }
    (planned.0 as int, planned.1 as int)
}

/// After its swap a zap deposits what it kept of the input and whatever the swap
/// brought, as far as the pool's ratio after the swap allows. It is refused exactly
/// where the swap brought nothing or one side of the deposit would be zero.
pub proof fn law_zap_deposits(
    message: ZapMessage,
    height: u64,
    incoming: Seq<AlkaneTransfer>,
    rounds: Seq<Round>,
    step: Step,
)
    requires
        reaches(message, height, incoming, rounds, step),
        message is ZapIn || message is ZapInForExactLp,
        rounds.len() == 3,
    ensures
        ({
            let f = facts_in(rounds);
            let input = sold_by(message);
            let output = bought_by(message);
            let sold = first_sent(rounds[2].asked);
            let got = at_most_max(total_of(rounds[2].response.alkanes@, output) as int);
            let new_in = at_most_max(reserve_of(input, f) + sold.value);
            let new_out = left_of(reserve_of(output, f) as int, got);
            &&& sold.id == input
            &&& got == 0 ==> step == (Step::Revert { error: ZapError::SwapReturnedNothing })
            &&& got > 0 ==> exists|din: int, dout: int|
                {
                    &&& #[trigger] is_deposit(
                        din,
                        dout,
                        zapped(message, f) - sold.value,
                        got,
                        new_in,
                        new_out,
                    )
                    &&& din > 0 && dout > 0 ==> asks_deposit(
                        step,
                        pool_asked(message),
                        input,
                        din,
                        dout,
                        f,
                    )
                    &&& din == 0 || dout == 0 ==> step == (Step::Revert {
                        error: ZapError::DepositIsZero,
                    })
                }
        }),
{
    let last = rounds.last();
    let before = rounds.drop_last();
    let f = facts_in(rounds);
    assert(before[0] == rounds[0] && before[1] == rounds[1]);
    let r = lemma_zap_is_swapping(message, height, incoming, before, last.asked);
    let swap = last.asked->pending->swap;
    let d = lemma_deposit_follows(step, swap, last.response.alkanes@, f);
    let got = at_most_max(total_of(last.response.alkanes@, bought_by(message)) as int);
    if got > 0 {
        assert(is_deposit(
            d.0,
            d.1,
            zapped(message, f) - first_sent(rounds[2].asked).value,
            got,
            at_most_max(reserve_of(sold_by(message), f) + first_sent(rounds[2].asked).value),
            left_of(reserve_of(bought_by(message), f) as int, got),
        ));
    }
}

/// A zap ends with what the pool minted: with that number as its data where it is
/// at least the caller's minimum, and refused where it is less.
pub proof fn law_zap_ends(
    message: ZapMessage,
    height: u64,
    incoming: Seq<AlkaneTransfer>,
    rounds: Seq<Round>,
    step: Step,
)
    requires
        reaches(message, height, incoming, rounds, step),
        message is ZapIn || message is ZapInForExactLp,
        rounds.len() == 4,
    ensures
        ({
            let lp = at_most_max(total_of(rounds[3].response.alkanes@, pool_asked(message)) as int);
            &&& lp >= least_minted(message) ==> ends_with(step, lp)
            &&& lp < least_minted(message) ==> step == (Step::Revert {
                error: ZapError::InsufficientLp { got: lp as u128, want: least_minted(message) },
            })
        }),
{
    let last = rounds.last();
    let third = rounds.drop_last();
    let second = third.drop_last();
    reveal_with_fuel(reaches, 3);
    let r = lemma_zap_is_swapping(message, height, incoming, second, third.last().asked);
    let deposit = last.asked->pending->deposit;
    let received = last.response.alkanes@;
    let lp = capped(total_of(received, deposit.pool));
    law_bytes_make_up_word(lp);
    if step is Done {
        law_aggregate(
            zap_in_payout(deposit, received),
            step->response.alkanes@,
            deposit.pool,
        );
    }
}

/// Whether an unzap of `liquidity` can go to its withdrawal: its output is one of
/// the pool's tokens, and the liquidity has come in.
pub open spec fn can_unzap(
    output: AlkaneId,
    pool: AlkaneId,
    liquidity: int,
    f: PoolFacts,
    incoming: Seq<AlkaneTransfer>,
) -> bool {
    &&& output == f.token_a || output == f.token_b
    &&& 0 < liquidity <= total_of(incoming, pool)
}

/// An unzap withdraws exactly the liquidity that the caller named, wherever its
/// output is one of the pool's tokens and that much has come in; it is refused
/// everywhere else.
pub proof fn law_zap_out_withdraws(
    message: ZapMessage,
    height: u64,
    incoming: Seq<AlkaneTransfer>,
    rounds: Seq<Round>,
    step: Step,
)
    requires
        reaches(message, height, incoming, rounds, step),
        message is ZapOut,
        rounds.len() == 2,
        rounds[1].response.data.len() >= 16,
    ensures
        ({
            let f = facts_in(rounds);
            let pool = message->ZapOut_pool;
            let output = message->ZapOut_output_token;
            let liquidity = message->ZapOut_liquidity;
            let known = output == f.token_a || output == f.token_b;
            &&& can_unzap(output, pool, liquidity as int, f, incoming) ==> asks_call_with(
                step,
                pool,
                seq![2u128],
                pool,
                liquidity as int,
            )
            &&& !can_unzap(output, pool, liquidity as int, f, incoming) ==> step is Revert
            &&& !known ==> step == (Step::Revert {
                error: ZapError::OutputNotInPool {
                    output,
                    token_a: f.token_a,
                    token_b: f.token_b,
                },
            })
            &&& known ==> refuses_input(step, pool, liquidity, total_of(incoming, pool))
        }),
{
    lemma_job_begins(message, height, incoming, rounds, step);
    law_extraction(incoming, message->ZapOut_pool, message->ZapOut_liquidity);
}

/// The liquidity that an output target takes, at what the pool said: the closed form
/// and three units, as far as that fits in 128 bits.
pub open spec fn burned_for(output: AlkaneId, wanted: u128, f: PoolFacts) -> int {
    at_most_max(
        unzap_liquidity(
            wanted as nat,
            reserve_of(output, f) as nat,
            f.supply as nat,
            f.fee as nat,
        ) as int + 3,
    )
}

/// An unzap for an output target withdraws what the target takes, wherever the
/// target is positive and below the reserve of one of the pool's tokens, there is a
/// supply and a fee that leaves something to trade, and what it takes is within
/// the limit and has come in; it is refused everywhere else.
pub proof fn law_exact_out_withdraws(
    message: ZapMessage,
    height: u64,
    incoming: Seq<AlkaneTransfer>,
    rounds: Seq<Round>,
    step: Step,
)
    requires
        reaches(message, height, incoming, rounds, step),
        message is ZapOutForExactOut,
        rounds.len() == 2,
        rounds[1].response.data.len() >= 16,
    ensures
        ({
            let f = facts_in(rounds);
            let pool = message->ZapOutForExactOut_pool;
            let output = message->ZapOutForExactOut_output_token;
            let wanted = message->ZapOutForExactOut_output_amount;
            let max = message->ZapOutForExactOut_max_lp;
            let burned = burned_for(output, wanted, f);
            let known = output == f.token_a || output == f.token_b;
            let reachable = known && f.supply > 0 && 0 < wanted < reserve_of(output, f) && f.fee
                < 1000;
            &&& reachable && burned <= max && burned <= total_of(incoming, pool) ==> asks_call_with(
                step,
                pool,
                seq![2u128],
                pool,
                burned,
            )
            &&& !(reachable && burned <= max && burned <= total_of(incoming, pool)) ==> step
                is Revert
            &&& !known ==> step == (Step::Revert {
                error: ZapError::OutputNotInPool {
                    output,
                    token_a: f.token_a,
                    token_b: f.token_b,
                },
            })
            &&& known && f.supply == 0 ==> step == (Step::Revert {
                error: ZapError::ZeroTotalSupply,
            })
            &&& known && f.supply > 0 && reserve_of(output, f) == 0 ==> step == (Step::Revert {
                error: ZapError::ZeroOutputReserve,
            })
            &&& known && f.supply > 0 && wanted < reserve_of(output, f) && f.fee >= 1000 ==> step
                == (Step::Revert { error: ZapError::FeeTooHigh })
            &&& known && f.supply > 0 && 0 < reserve_of(output, f) <= wanted ==> step
                == (Step::Revert {
                error: ZapError::OutputExceedsReserve {
                    output_amount: wanted,
                    reserve: reserve_of(output, f),
                },
            })
            &&& reachable && burned > max ==> step == (Step::Revert {
                error: ZapError::LpExceedsMax { required: burned as u128, max },
            })
            &&& reachable && burned <= max ==> refuses_input(
                step,
                pool,
                burned as u128,
                total_of(incoming, pool),
            )
        }),
{
    let f = facts_in(rounds);
    let output = message->ZapOutForExactOut_output_token;
    let wanted = message->ZapOutForExactOut_output_amount;
    lemma_job_begins(message, height, incoming, rounds, step);
    law_inverse_unzap_refusal(wanted, reserve_of(output, f), f.supply, f.fee);
    law_extraction(
        incoming,
        message->ZapOutForExactOut_pool,
        exact_out_liquidity(output, wanted, snapshot(rounds)),
    );
}

/// The output of an unzap.
pub open spec fn unzapped_to(message: ZapMessage) -> AlkaneId {
    if message is ZapOut {
        message->ZapOut_output_token
    } else {
        message->ZapOutForExactOut_output_token
    }
}

/// The least output that an unzap accepts.
pub open spec fn least_output(message: ZapMessage) -> u128 {
    if message is ZapOut {
        message->ZapOut_min_out
    } else {
        message->ZapOutForExactOut_output_amount
    }
}

/// An unzap that got to its withdrawal: what it is about.
pub proof fn lemma_unzap_is_burning(
    message: ZapMessage,
    height: u64,
    incoming: Seq<AlkaneTransfer>,
    rounds: Seq<Round>,
    step: Step,
)
    requires
        reaches(message, height, incoming, rounds, step),
        message is ZapOut || message is ZapOutForExactOut,
        rounds.len() == 2,
        step is Ask,
    ensures
        ({
            let f = facts_in(rounds);
            let burn = step->pending->burn;
            &&& step->pending is Burn
            &&& agrees(burn.state, f)
            &&& burn.pool == pool_asked(message)
            &&& burn.output_token == unzapped_to(message)
            &&& burn.min_out == least_output(message)
            &&& unzapped_to(message) == f.token_a || unzapped_to(message) == f.token_b
            &&& first_sent(step).id == pool_asked(message)
            &&& 0 < first_sent(step).value <= total_of(incoming, pool_asked(message))
            &&& burn.leftovers@ == change_of(
                incoming,
                pool_asked(message),
                first_sent(step).value,
            )
        }),
{
    if rounds[1].response.data.len() < 16 {
        law_after_short_fee(message, height, incoming, rounds, step);
    }
    lemma_job_begins(message, height, incoming, rounds, step);
}

/// What a withdrawal brought of a token.
pub open spec fn brought(rounds: Seq<Round>, at: int, token: AlkaneId) -> int {
    at_most_max(total_of(rounds[at].response.alkanes@, token) as int)
}

/// Whether an unzap ends with `total`: with that number as its data where it is at
/// least the caller's minimum, and refused where it is less.
pub open spec fn settles(step: Step, total: int, least: u128) -> bool {
    &&& total >= least ==> ends_with(step, total)
    &&& total < least ==> step == (Step::Revert {
        error: ZapError::InsufficientOutput { got: total as u128, want: least },
    })
}

/// An unzap goes on from its withdrawal.
proof fn lemma_swap_follows(
    step: Step,
    burn: BurnPending,
    received: Seq<AlkaneTransfer>,
    f: PoolFacts,
) -> (out: int)
    requires
        continues_zap_out(step, burn, received),
        agrees(burn.state, f),
        burn.output_token == f.token_a || burn.output_token == f.token_b,
        f.token_a != f.token_b,
    ensures
        ({
            let output = burn.output_token;
            let unwanted = other_than(output, f);
            let own = at_most_max(total_of(received, output) as int);
            let sold = at_most_max(total_of(received, unwanted) as int);
            let left_own = left_of(reserve_of(output, f) as int, own);
            let left_other = left_of(reserve_of(unwanted, f) as int, sold);
            &&& own == 0 || sold == 0 ==> step == (Step::Revert {
                error: ZapError::BurnReturnedNothing,
            })
            &&& own > 0 && sold > 0 && left_own > 0 && left_other > 0 ==> is_payout(
                out,
                sold,
                left_other,
                left_own,
                f.fee as nat,
            ) && asks_swap(step, burn.pool, unwanted, sold, output, out, f)
            &&& own > 0 && sold > 0 && (left_own == 0 || left_other == 0) ==> settles(
                step,
                own,
                burn.min_out,
            )
            &&& step is Ask ==> {
                let unzap = step->pending->unzap;
                &&& step->pending is Unzap
                &&& unzap.output_token == output
                &&& unzap.own_side == own
                &&& unzap.min_out == burn.min_out
            }
        }),
{
    lemma_total_without(received, f.token_a, f.token_b);
    let (amt_a, amt_b, rest) = withdrawn(burn, received);
    let output = burn.output_token;
    let unwanted = other_than(output, f);
    let own = at_most_max(total_of(received, output) as int);
    let sold = at_most_max(total_of(received, unwanted) as int);
    let left_own = left_of(reserve_of(output, f) as int, own);
    let left_other = left_of(reserve_of(unwanted, f) as int, sold);
    if output == f.token_a {
        assert(amt_a == own && amt_b == sold);
    } else {
        assert(amt_b == own && amt_a == sold);
    }
    let out = swap_out(sold as nat, left_other as nat, left_own as nat, f.fee as nat);
    if own > 0 && sold > 0 {
        if left_own > 0 && left_other > 0 {
            law_swap_output(sold as nat, left_other as nat, left_own as nat, f.fee as nat);
            lemma_swap_out_below_reserve(
                sold as nat,
                left_other as nat,
                left_own as nat,
                f.fee as nat,
            );
            assert(asks_swap(step, burn.pool, unwanted, sold, output, out as int, f));
        } else {
            law_bytes_make_up_word(own as u128);
            if step is Done {
                let first = seq![AlkaneTransfer { id: output, value: own as u128 }];
                let back = burn.leftovers@ + rest + seq![
                    AlkaneTransfer { id: unwanted, value: sold as u128 },
                ];
                law_aggregate(first + back, step->response.alkanes@, output);
            }
        }
    }
    out as int
}

/// After its withdrawal an unzap sells all of the unwanted token that the withdrawal
/// brought, for what the remaining reserves owe in the wanted one. Where a reserve
/// is used up it ends with what the withdrawal brought. It is refused where the
/// withdrawal brought nothing of one of the pool's two tokens.
pub proof fn law_unzap_swaps(
    message: ZapMessage,
    height: u64,
    incoming: Seq<AlkaneTransfer>,
    rounds: Seq<Round>,
    step: Step,
)
    requires
        reaches(message, height, incoming, rounds, step),
        message is ZapOut || message is ZapOutForExactOut,
        rounds.len() == 3,
        facts_in(rounds).token_a != facts_in(rounds).token_b,
    ensures
        ({
            let f = facts_in(rounds);
            let output = unzapped_to(message);
            let unwanted = other_than(output, f);
            let own = brought(rounds, 2, output);
            let sold = brought(rounds, 2, unwanted);
            let left_own = left_of(reserve_of(output, f) as int, own);
            let left_other = left_of(reserve_of(unwanted, f) as int, sold);
            &&& own == 0 || sold == 0 ==> step == (Step::Revert {
                error: ZapError::BurnReturnedNothing,
            })
            &&& own > 0 && sold > 0 && left_own > 0 && left_other > 0 ==> exists|out: int|
                #[trigger] is_payout(out, sold, left_other, left_own, f.fee as nat) && asks_swap(
                    step,
                    pool_asked(message),
                    unwanted,
                    sold,
                    output,
                    out,
                    f,
                )
            &&& own > 0 && sold > 0 && (left_own == 0 || left_other == 0) ==> settles(
                step,
                own,
                least_output(message),
            )
        }),
{
    let last = rounds.last();
    let before = rounds.drop_last();
    let f = facts_in(rounds);
    assert(before[0] == rounds[0] && before[1] == rounds[1]);
    lemma_unzap_is_burning(message, height, incoming, before, last.asked);
    let out = lemma_swap_follows(
        step,
        last.asked->pending->burn,
        last.response.alkanes@,
        f,
    );
}

/// A pool that says that its two tokens are the same one has nothing to withdraw on
/// the second side: the unzap is refused.
pub proof fn law_unzap_needs_two_tokens(
    message: ZapMessage,
    height: u64,
    incoming: Seq<AlkaneTransfer>,
    rounds: Seq<Round>,
    step: Step,
)
    requires
        reaches(message, height, incoming, rounds, step),
        message is ZapOut || message is ZapOutForExactOut,
        rounds.len() == 3,
        facts_in(rounds).token_a == facts_in(rounds).token_b,
    ensures
        step == (Step::Revert { error: ZapError::BurnReturnedNothing }),
{
    let last = rounds.last();
    let before = rounds.drop_last();
    let f = facts_in(rounds);
    assert(before[0] == rounds[0] && before[1] == rounds[1]);
    lemma_unzap_is_burning(message, height, incoming, before, last.asked);
    lemma_total_without(last.response.alkanes@, f.token_a, f.token_b);
}

/// After its swap an unzap ends with what the withdrawal and the swap brought in the
/// wanted token together.
pub proof fn law_unzap_ends(
    message: ZapMessage,
    height: u64,
    incoming: Seq<AlkaneTransfer>,
    rounds: Seq<Round>,
    step: Step,
)
    requires
        reaches(message, height, incoming, rounds, step),
        message is ZapOut || message is ZapOutForExactOut,
        rounds.len() == 4,
        facts_in(rounds).token_a != facts_in(rounds).token_b,
    ensures
        ({
            let output = unzapped_to(message);
            settles(
                step,
                at_most_max(brought(rounds, 2, output) + brought(rounds, 3, output)),
                least_output(message),
            )
        }),
{
    let last = rounds.last();
    let third = rounds.drop_last();
    let second = third.drop_last();
    let f = facts_in(rounds);
    reveal_with_fuel(reaches, 3);
    assert(second[0] == rounds[0] && second[1] == rounds[1]);
    lemma_unzap_is_burning(message, height, incoming, second, third.last().asked);
    let out = lemma_swap_follows(
        last.asked,
        third.last().asked->pending->burn,
        third.last().response.alkanes@,
        f,
    );
    let unzap = last.asked->pending->unzap;
    let received = last.response.alkanes@;
    let got = capped(total_of(received, unzap.output_token));
    let total = capped((unzap.own_side + got) as nat);
    law_bytes_make_up_word(total);
    if step is Done {
        let first = seq![AlkaneTransfer { id: unzap.output_token, value: total }];
        let back = unzap.leftovers@ + without(received, unzap.output_token);
        law_aggregate(first + back, step->response.alkanes@, unzap.output_token);
    }
}

/// Whether the reply to a swap pays exactly what the call asked for: the second
/// argument in the pool's first token, the third in its second.
pub open spec fn pays_as_asked(round: Round, f: PoolFacts) -> bool {
    let asked = round.asked->action->Call_cellpack.inputs@;
    &&& total_of(round.response.alkanes@, f.token_a) == asked[1]
    &&& total_of(round.response.alkanes@, f.token_b) == asked[2]
}

/// Whether whatever a pool can mint for a deposit is at least `target` and fits.
pub open spec fn mint_reaches(
    target: int,
    din: int,
    dout: int,
    reserve_in: int,
    reserve_out: int,
    total_supply: int,
) -> bool {
    forall|m: int| #[trigger]
        is_mint(m, din, dout, reserve_in, reserve_out, total_supply) ==> target <= m <= u128::MAX
}

/// With a pool that pays what the swap asked for, a zap for a liquidity target goes
/// on to its deposit, and the deposit earns the target.
pub proof fn law_exact_lp_gets_to_deposit(
    message: ZapMessage,
    height: u64,
    incoming: Seq<AlkaneTransfer>,
    rounds: Seq<Round>,
    step: Step,
)
    requires
        reaches(message, height, incoming, rounds, step),
        message is ZapInForExactLp,
        rounds.len() == 3,
        pays_as_asked(rounds[2], facts_in(rounds)),
        reserve_of(sold_by(message), facts_in(rounds)) + zapped(message, facts_in(rounds))
            <= u128::MAX,
    ensures
        step is Ask,
        ({
            let f = facts_in(rounds);
            let input = sold_by(message);
            let output = bought_by(message);
            let sold = first_sent(rounds[2].asked);
            let got = total_of(rounds[2].response.alkanes@, output) as int;
            exists|din: int, dout: int|
                {
                    &&& #[trigger] asks_deposit(step, pool_asked(message), input, din, dout, f)
                    &&& is_deposit(
                        din,
                        dout,
                        zapped(message, f) - sold.value,
                        got,
                        reserve_of(input, f) + sold.value,
                        reserve_of(output, f) - got,
                    )
                    &&& mint_reaches(
                        message->ZapInForExactLp_lp_out as int,
                        din,
                        dout,
                        reserve_of(input, f) + sold.value,
                        reserve_of(output, f) - got,
                        f.supply as int,
                    )
                }
        }),
{
    let f = facts_in(rounds);
    let input = sold_by(message);
    let output = bought_by(message);
    let lp_out = message->ZapInForExactLp_lp_out;
    let r_in = reserve_of(input, f) as nat;
    let r_out = reserve_of(output, f) as nat;
    let supply = f.supply as nat;
    let fee = f.fee as nat;
    let last = rounds.last();
    let before = rounds.drop_last();
    assert(before[0] == rounds[0] && before[1] == rounds[1]);
    let r = lemma_zap_is_swapping(message, height, incoming, before, last.asked);
    law_exact_lp_takes_tried_input(message, height, incoming, before, last.asked);
    let swap = last.asked->pending->swap;
    let d = lemma_deposit_follows(step, swap, last.response.alkanes@, f);
    let amount = zapped(message, f);
    lemma_exact_lp_mints(message, height, incoming, before, last.asked);
    assert(total_of(last.response.alkanes@, output) == r.1);
    lemma_payout_in_reserve(r.1, r.0, r_in as int, r_out as int, fee);
    let n = (r_in + r.0) as nat;
    let p = (r_out - r.1) as nat;
    if r.1 > 0 {
        let m = pool_mint(d.0 as nat, d.1 as nat, n, p, supply);
        law_mint(d.0 as nat, d.1 as nat, n, p, supply);
        law_prediction(
            amount as nat,
            r_in,
            r_out,
            supply,
            fee,
            r.0,
            r.1,
            d.0,
            d.1,
            m as int,
        );
        assert(d.0 > 0 && d.1 > 0);
        assert(asks_deposit(step, pool_asked(message), input, d.0, d.1, f));
        assert forall|m: int| #[trigger]
            is_mint(m, d.0, d.1, n as int, p as int, f.supply as int) implies lp_out <= m
            <= u128::MAX by {
            law_prediction(
                amount as nat,
                r_in,
                r_out,
                supply,
                fee,
                r.0,
                r.1,
                d.0,
                d.1,
                m,
            );
        }
    } else {
        law_deposit((amount - r.0) as nat, 0, n, p);
        let d = planned_deposit((amount - r.0) as nat, 0, n, p);
        law_mint(d.0, d.1, n, p, supply);
        law_prediction(
            amount as nat,
            r_in,
            r_out,
            supply,
            fee,
            r.0,
            r.1,
            d.0 as int,
            d.1 as int,
            pool_mint(d.0, d.1, n, p, supply) as int,
        );
    }
}

/// What a pool owes is below its reserve.
proof fn lemma_payout_in_reserve(out: int, paid: int, r_in: int, r_out: int, fee: nat)
    requires
        paid >= 0,
        r_in > 0,
        r_out > 0,
        is_payout(out, paid, r_in, r_out, fee),
    ensures
        0 <= out < r_out,
{
    law_swap_output(paid as nat, r_in as nat, r_out as nat, fee);
    lemma_payout_unique(
        out,
        swap_out(paid as nat, r_in as nat, r_out as nat, fee) as int,
        paid,
        r_in,
        r_out,
        fee,
    );
    lemma_swap_out_below_reserve(paid as nat, r_in as nat, r_out as nat, fee);
}

/// The input that a liquidity target takes mints it.
proof fn lemma_exact_lp_mints(
    message: ZapMessage,
    height: u64,
    incoming: Seq<AlkaneTransfer>,
    rounds: Seq<Round>,
    step: Step,
)
    requires
        reaches(message, height, incoming, rounds, step),
        message is ZapInForExactLp,
        rounds.len() == 2,
        step is Ask,
    ensures
        ({
            let f = facts_in(rounds);
            &&& mints(
                zapped(message, f) as nat,
                message->ZapInForExactLp_lp_out,
                sold_by(message),
                bought_by(message),
                f,
            )
            &&& message->ZapInForExactLp_lp_out > 0
            &&& f.fee < 1000
            &&& 0 < zapped(message, f) <= message->ZapInForExactLp_amount_in_max
        }),
{
    if rounds[1].response.data.len() < 16 {
        law_after_short_fee(message, height, incoming, rounds, step);
    }
    let f = facts_in(rounds);
    lemma_job_begins(message, height, incoming, rounds, step);
    let r_in = reserve_of(sold_by(message), f) as nat;
    let r_out = reserve_of(bought_by(message), f) as nat;
    let lp_out = message->ZapInForExactLp_lp_out as nat;
    law_exact_lp_refusal(lp_out, r_in, r_out, f.supply as nat, f.fee as nat);
    law_exact_lp_never_undershoots(
        lp_out,
        r_in,
        r_out,
        f.supply as nat,
        f.fee as nat,
    );
    law_inverse_covers_target(lp_out, r_in, f.supply as nat, f.fee as nat);
}

/// With a pool that pays what the swap asked for and mints what the deposit earns, a
/// zap for a liquidity target delivers it.
pub proof fn law_exact_lp_delivers(
    message: ZapMessage,
    height: u64,
    incoming: Seq<AlkaneTransfer>,
    rounds: Seq<Round>,
    step: Step,
)
    requires
        reaches(message, height, incoming, rounds, step),
        message is ZapInForExactLp,
        rounds.len() == 4,
        pays_as_asked(rounds[2], facts_in(rounds)),
        ({
            let f = facts_in(rounds);
            let input = sold_by(message);
            let output = bought_by(message);
            let sold = first_sent(rounds[2].asked);
            let got = total_of(rounds[2].response.alkanes@, output) as int;
            let deposited = rounds[3].asked->action->parcel@;
            let (din, dout) = if input == f.token_a {
                (deposited[0].value, deposited[1].value)
            } else {
                (deposited[1].value, deposited[0].value)
            };
            &&& reserve_of(input, f) + zapped(message, f) <= u128::MAX
            &&& is_mint(
                total_of(rounds[3].response.alkanes@, pool_asked(message)) as int,
                din as int,
                dout as int,
                reserve_of(input, f) + sold.value,
                reserve_of(output, f) - got,
                f.supply as int,
            )
        }),
    ensures
        ({
            let minted = total_of(rounds[3].response.alkanes@, pool_asked(message)) as int;
            &&& minted >= message->ZapInForExactLp_lp_out
            &&& ends_with(step, minted)
        }),
{
    let f = facts_in(rounds);
    let third = rounds.drop_last();
    let asked = rounds.last().asked;
    assert(third[0] == rounds[0] && third[1] == rounds[1] && third[2] == rounds[2]);
    law_exact_lp_gets_to_deposit(message, height, incoming, third, asked);
    law_zap_ends(message, height, incoming, rounds, step);
    let (din, dout) = choose|din: int, dout: int|
        {
            &&& #[trigger] asks_deposit(asked, pool_asked(message), sold_by(message), din, dout, f)
            &&& mint_reaches(
                message->ZapInForExactLp_lp_out as int,
                din,
                dout,
                reserve_of(sold_by(message), f) + first_sent(rounds[2].asked).value,
                reserve_of(bought_by(message), f) - total_of(
                    rounds[2].response.alkanes@,
                    bought_by(message),
                ),
                f.supply as int,
            )
        };
    assert(is_mint(
        total_of(rounds[3].response.alkanes@, pool_asked(message)) as int,
        din,
        dout,
        reserve_of(sold_by(message), f) + first_sent(rounds[2].asked).value,
        reserve_of(bought_by(message), f) - total_of(
            rounds[2].response.alkanes@,
            bought_by(message),
        ),
        f.supply as int,
    ));
}

/// With a pool that pays what the swap asked for, an unzap ends with what its
/// withdrawal brought and what the remaining reserves owe for the rest.
pub proof fn law_unzap_delivers(
    message: ZapMessage,
    height: u64,
    incoming: Seq<AlkaneTransfer>,
    rounds: Seq<Round>,
    step: Step,
)
    requires
        reaches(message, height, incoming, rounds, step),
        message is ZapOut || message is ZapOutForExactOut,
        rounds.len() == 4,
        facts_in(rounds).token_a != facts_in(rounds).token_b,
        pays_as_asked(rounds[3], facts_in(rounds)),
    ensures
        ({
            let f = facts_in(rounds);
            let output = unzapped_to(message);
            let unwanted = other_than(output, f);
            let own = brought(rounds, 2, output);
            let sold = brought(rounds, 2, unwanted);
            exists|out: int|
                {
                    &&& #[trigger] is_payout(
                        out,
                        sold,
                        left_of(reserve_of(unwanted, f) as int, sold),
                        left_of(reserve_of(output, f) as int, own),
                        f.fee as nat,
                    )
                    &&& settles(step, at_most_max(own + out), least_output(message))
                }
        }),
{
    let f = facts_in(rounds);
    let third = rounds.drop_last();
    let second = third.drop_last();
    let asked = rounds.last().asked;
    assert(third[0] == rounds[0] && third[1] == rounds[1] && third[2] == rounds[2]);
    assert(second[0] == rounds[0] && second[1] == rounds[1]);
    reveal_with_fuel(reaches, 3);
    lemma_unzap_is_burning(message, height, incoming, second, third.last().asked);
    law_unzap_swaps(message, height, incoming, third, asked);
    law_unzap_ends(message, height, incoming, rounds, step);
    let output = unzapped_to(message);
    let unwanted = other_than(output, f);
    let own = brought(third, 2, output);
    let sold = brought(third, 2, unwanted);
    let left_other = left_of(reserve_of(unwanted, f) as int, sold);
    let left_own = left_of(reserve_of(output, f) as int, own);
    assert(left_own > 0 && left_other > 0);
    let out = choose|out: int|
        #[trigger] is_payout(out, sold, left_other, left_own, f.fee as nat) && asks_swap(
            asked,
            pool_asked(message),
            unwanted,
            sold,
            output,
            out,
            f,
        );
    lemma_payout_in_reserve(out, sold, left_other, left_own, f.fee as nat);
    assert(brought(rounds, 3, output) == out);
    assert(brought(rounds, 2, output) == own && brought(rounds, 2, unwanted) == sold);
    assert(settles(step, at_most_max(own + out), least_output(message)));
    assert(is_payout(out, sold, left_other, left_own, f.fee as nat));
}

} // verus!
