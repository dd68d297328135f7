//! The router: how each operation starts, and how it goes on with each reply.

use crate::bytes::{push_u128, u128_bytes};
use crate::pool::{
    call_bonding, call_pool_details, call_staking, call_total_fee, details_of, field_at,
    parse_pool_details, parse_total_fee, state_with_fee, with_fee,
};
use crate::protocol::{
    is_call, is_static_call, Job, Pending, PoolDetails, PoolState, Reply, Step, ZapMessage,
};
use crate::transfers::{
    append_transfers, change_of, extract_refusal, make_response, response_carries,
};
use crate::types::{AlkaneId, AlkaneTransfer, CallResponse, ZapError};
use crate::zap_in::{begins_exact_lp, begins_zap_in, continues_zap_in, finishes_zap_in};
use crate::zap_out::{
    begins_exact_out, begins_zap_out, continues_zap_out, finishes_zap_out, output_refusal,
};
use vstd::prelude::*;

verus! {

/// The router. It keeps nothing between operations.
#[derive(Debug, PartialEq, Eq)]
pub struct Zap();

impl Default for Zap {
    fn default() -> (r: Zap)
        ensures
            r == Zap(),
    {
        Zap()
    }
}

/// Whether staking offers a lock duration: none, a week, a month, three months,
/// half a year or a year, in blocks.
pub open spec fn lock_duration_accepted(lock_duration: u128) -> bool {
    ||| lock_duration == 0
    ||| lock_duration == 1_050
    ||| lock_duration == 4_375
    ||| lock_duration == 13_125
    ||| lock_duration == 26_250
    ||| lock_duration == 52_500
}

/// Accepts only the exact lock durations that staking offers, so that the caller
/// lands in the intended tier.
pub fn validate_lock_duration(lock_duration: u128) -> (r: Result<(), ZapError>)
    ensures
        r == (if lock_duration_accepted(lock_duration) {
            Ok::<(), ZapError>(())
        } else {
            Err(ZapError::InvalidLockDuration { lock_duration })
        }),
{
    if lock_duration == 0 || lock_duration == 1_050 || lock_duration == 4_375 || lock_duration
        == 13_125 || lock_duration == 26_250 || lock_duration == 52_500 {
        Ok(())
    } else {
        Err(ZapError::InvalidLockDuration { lock_duration })
    }
}

/// The refusal of an operation whose deadline has passed. A deadline of zero
/// never passes.
pub open spec fn expiry(height: u64, deadline: u128) -> Option<ZapError> {
    if deadline != 0 && height > deadline {
        Some(ZapError::Expired { height, deadline })
    } else {
        None
    }
}

/// The pool that a job is about.
pub open spec fn job_pool(job: Job) -> AlkaneId {
    match job {
        Job::ZapIn { pool, .. } => pool,
        Job::ZapInForExactLp { pool, .. } => pool,
        Job::ZapOut { pool, .. } => pool,
        Job::ZapOutForExactOut { pool, .. } => pool,
    }
}

/// The pool that a job is about.
fn pool_of(job: Job) -> (r: AlkaneId)
    ensures
        r == job_pool(job),
{
    match job {
        Job::ZapIn { pool, .. } => pool,
        Job::ZapInForExactLp { pool, .. } => pool,
        Job::ZapOut { pool, .. } => pool,
        Job::ZapOutForExactOut { pool, .. } => pool,
    }
}

/// Whether a step asks for the description of the job's pool.
pub open spec fn asks_details(step: Step, job: Job, incoming: Seq<AlkaneTransfer>) -> bool {
    &&& step matches Step::Ask { action, pending: Pending::Details { job: kept, incoming: held } }
    &&& is_static_call(action, job_pool(job), seq![999u128])
    &&& kept == job
    &&& held@ == incoming
}

/// Whether a step asks for the fee of the job's pool.
pub open spec fn asks_fee(
    step: Step,
    job: Job,
    details: PoolDetails,
    incoming: Seq<AlkaneTransfer>,
) -> bool {
    &&& step matches Step::Ask {
        action,
        pending: Pending::Fee { job: kept, details: known, incoming: held },
    }
    &&& is_static_call(action, job_pool(job), seq![20u128])
    &&& kept == job
    &&& known == details
    &&& held@ == incoming
}

/// How a job goes on with its pool's snapshot.
pub open spec fn begins_job(
    step: Step,
    job: Job,
    state: PoolState,
    incoming: Seq<AlkaneTransfer>,
) -> bool {
    match job {
        Job::ZapIn { pool, input_token, output_token, amount_in, min_lp_tokens } => begins_zap_in(
            step,
            pool,
            input_token,
            output_token,
            amount_in,
            min_lp_tokens,
            state,
            incoming,
        ),
        Job::ZapInForExactLp { pool, input_token, output_token, lp_out, amount_in_max } =>
        begins_exact_lp(
            step,
            pool,
            input_token,
            output_token,
            lp_out,
            amount_in_max,
            state,
            incoming,
        ),
        Job::ZapOut { pool, output_token, liquidity, min_out } => match output_refusal(
            output_token,
            state,
        ) {
            Some(error) => step == (Step::Revert { error }),
            None => begins_zap_out(
                step,
                pool,
                output_token,
                liquidity,
                min_out,
                state,
                incoming,
            ),
        },
        Job::ZapOutForExactOut { pool, output_token, output_amount, max_lp } => begins_exact_out(
            step,
            pool,
            output_token,
            output_amount,
            max_lp,
            state,
            incoming,
        ),
    }
}

/// How liquidity is forwarded: exactly `liquidity` goes to `target`, the rest of
/// what came in is kept as change.
pub open spec fn forwards_liquidity(
    step: Step,
    pool: AlkaneId,
    target: AlkaneId,
    liquidity: u128,
    inputs: Seq<u128>,
    incoming: Seq<AlkaneTransfer>,
) -> bool {
    if liquidity == 0 {
        step == (Step::Revert { error: ZapError::ZeroLiquidity })
    } else {
        match extract_refusal(incoming, pool, liquidity) {
            Some(error) => step == (Step::Revert { error }),
            None => {
                &&& step matches Step::Ask {
                    action,
                    pending: Pending::Forwarded { lp_amount, leftovers },
                }
                &&& is_call(
                    action,
                    target,
                    inputs,
                    seq![AlkaneTransfer { id: pool, value: liquidity }],
                )
                &&& lp_amount == liquidity
                &&& leftovers@ == change_of(incoming, pool, liquidity)
            },
        }
    }
}

/// Whether a response carries no tokens and the given data.
pub open spec fn is_view_response(response: CallResponse, data: Seq<u8>) -> bool {
    &&& response.alkanes@ == Seq::<AlkaneTransfer>::empty()
    &&& response.data@ == data
}

/// `Zippo` in ASCII.
pub open spec fn contract_name() -> Seq<u8> {
    seq![0x5au8, 0x69u8, 0x70u8, 0x70u8, 0x6fu8]
}

/// `Winnipeg` in ASCII.
pub open spec fn contract_origin() -> Seq<u8> {
    seq![0x57u8, 0x69u8, 0x6eu8, 0x6eu8, 0x69u8, 0x70u8, 0x65u8, 0x67u8]
}

/// How an operation starts.
pub open spec fn starts(
    step: Step,
    message: ZapMessage,
    height: u64,
    incoming: Seq<AlkaneTransfer>,
) -> bool {
    match message {
        ZapMessage::ZapIn {
            pool,
            input_token,
            output_token,
            amount_in,
            min_lp_tokens,
            deadline,
        } => if expiry(height, deadline) is Some {
            step == (Step::Revert { error: expiry(height, deadline)->0 })
        } else if input_token == output_token {
            step == (Step::Revert { error: ZapError::SameTokens })
        } else {
            asks_details(
                step,
                Job::ZapIn { pool, input_token, output_token, amount_in, min_lp_tokens },
                incoming,
            )
        },
        ZapMessage::ZapInForExactLp {
            pool,
            input_token,
            output_token,
            lp_out,
            amount_in_max,
            deadline,
        } => if expiry(height, deadline) is Some {
            step == (Step::Revert { error: expiry(height, deadline)->0 })
        } else if input_token == output_token {
            step == (Step::Revert { error: ZapError::SameTokens })
        } else if lp_out == 0 {
            step == (Step::Revert { error: ZapError::ZeroLpOut })
        } else if amount_in_max == 0 {
            step == (Step::Revert { error: ZapError::ZeroAmountInMax })
        } else {
            asks_details(
                step,
                Job::ZapInForExactLp { pool, input_token, output_token, lp_out, amount_in_max },
                incoming,
            )
        },
        ZapMessage::ZapOut { pool, output_token, liquidity, min_out, deadline } => if expiry(
            height,
            deadline,
        ) is Some {
            step == (Step::Revert { error: expiry(height, deadline)->0 })
        } else if liquidity == 0 {
            step == (Step::Revert { error: ZapError::ZeroLiquidity })
        } else {
            asks_details(step, Job::ZapOut { pool, output_token, liquidity, min_out }, incoming)
        },
        ZapMessage::ZapOutForExactOut { pool, output_token, output_amount, max_lp, deadline } =>
        if expiry(height, deadline) is Some {
            step == (Step::Revert { error: expiry(height, deadline)->0 })
        } else if output_amount == 0 {
            step == (Step::Revert { error: ZapError::ZeroOutputAmount })
        } else if max_lp == 0 {
            step == (Step::Revert { error: ZapError::ZeroMaxLp })
        } else {
            asks_details(
                step,
                Job::ZapOutForExactOut { pool, output_token, output_amount, max_lp },
                incoming,
            )
        },
        ZapMessage::Stake { pool, staking, liquidity, lock_duration, deadline } => if expiry(
            height,
            deadline,
        ) is Some {
            step == (Step::Revert { error: expiry(height, deadline)->0 })
        } else if !lock_duration_accepted(lock_duration) {
            step == (Step::Revert { error: ZapError::InvalidLockDuration { lock_duration } })
        } else {
            forwards_liquidity(
                step,
                pool,
                staking,
                liquidity,
                seq![1u128, lock_duration, liquidity],
                incoming,
            )
        },
        ZapMessage::Bond { pool, bonding, liquidity, min_fire_out, deadline } => if expiry(
            height,
            deadline,
        ) is Some {
            step == (Step::Revert { error: expiry(height, deadline)->0 })
        } else {
            forwards_liquidity(
                step,
                pool,
                bonding,
                liquidity,
                seq![1u128, liquidity, min_fire_out],
                incoming,
            )
        },
        ZapMessage::Forward => {
            &&& step matches Step::Done { response }
            &&& response.alkanes@ == incoming
            &&& response.data@ == Seq::<u8>::empty()
        },
        ZapMessage::GetName => {
            &&& step matches Step::Done { response }
            &&& is_view_response(response, contract_name())
        },
        ZapMessage::MadeIn => {
            &&& step matches Step::Done { response }
            &&& is_view_response(response, contract_origin())
        },
    }
}

/// How an operation goes on with what a call returned.
pub open spec fn continues(step: Step, pending: Pending, response: CallResponse) -> bool {
    match pending {
        Pending::Details { job, incoming } => if response.data.len() < 112 {
            step == (Step::Revert {
                error: ZapError::PoolDetailsTooShort { length: response.data.len() },
            })
        } else {
            asks_fee(step, job, details_of(response.data@), incoming@)
        },
        Pending::Fee { job, details, incoming } => if response.data.len() < 16 {
            step == (Step::Revert {
                error: ZapError::FeeResponseTooShort { length: response.data.len() },
            })
        } else {
            begins_job(
                step,
                job,
                state_with_fee(details, field_at(response.data@, 0)),
                incoming@,
            )
        },
        Pending::Swap { swap } => continues_zap_in(step, swap, response.alkanes@),
        Pending::Deposit { deposit } => finishes_zap_in(step, deposit, response.alkanes@),
        Pending::Burn { burn } => continues_zap_out(step, burn, response.alkanes@),
        Pending::Unzap { unzap } => finishes_zap_out(step, unzap, response.alkanes@),
        Pending::Forwarded { lp_amount, leftovers } => {
            &&& step matches Step::Done { response: out }
            &&& response_carries(
                out,
                response.alkanes@ + leftovers@,
                u128_bytes(lp_amount) + response.data@,
            )
        },
    }
}

/// How an operation goes on with the reply to the call that it asked for. A
/// call that failed fails the operation.
pub open spec fn resumes(step: Step, pending: Pending, reply: Reply) -> bool {
    match reply {
        Reply::Failed => step == (Step::Revert { error: ZapError::CallFailed }),
        Reply::Returned { response } => continues(step, pending, response),
    }
}

impl Zap {
    /// A deadline of zero disables the check; any other one refuses the
    /// operation once the block height exceeds it.
    pub fn check_deadline(&self, height: u64, deadline: u128) -> (r: Result<(), ZapError>)
        ensures
            match r {
                Ok(_) => expiry(height, deadline) is None,
                Err(e) => expiry(height, deadline) == Some(e),
            },
    {
        if deadline != 0 && (height as u128) > deadline {
            return Err(ZapError::Expired { height, deadline });
        }
        Ok(())
    }

    /// Asks for the description of the job's pool.
    pub fn read_pool_state(&self, job: Job, incoming: Vec<AlkaneTransfer>) -> (step: Step)
        ensures
            asks_details(step, job, incoming@),
    {
        Step::Ask {
            action: call_pool_details(pool_of(job)),
            pending: Pending::Details { job, incoming },
        }
    }

    /// Keeps the pool's description and asks for its fee.
    pub fn query_fee_per_1000(
        &self,
        job: Job,
        incoming: Vec<AlkaneTransfer>,
        response: CallResponse,
    ) -> (step: Step)
        ensures
            continues(step, Pending::Details { job, incoming }, response),
    {
        let details = match parse_pool_details(&response.data) {
            Ok(details) => details,
            Err(error) => {
                return Step::Revert { error };
            },
        };
        Step::Ask {
            action: call_total_fee(pool_of(job)),
            pending: Pending::Fee { job, details, incoming },
        }
    }

    /// Completes the snapshot and begins the job.
    pub fn begin_job(
        &self,
        job: Job,
        details: PoolDetails,
        incoming: Vec<AlkaneTransfer>,
        response: CallResponse,
    ) -> (step: Step)
        ensures
            continues(step, Pending::Fee { job, details, incoming }, response),
    {
        let state = match parse_total_fee(&response.data) {
            Ok(fee) => with_fee(details, fee),
            Err(error) => {
                return Step::Revert { error };
            },
        };
        match job {
            Job::ZapIn { pool, input_token, output_token, amount_in, min_lp_tokens } => {
                self.execute_zap_to_lp_with_state(
                    pool,
                    input_token,
                    output_token,
                    amount_in,
                    min_lp_tokens,
                    &state,
                    &incoming,
                )
            },
            Job::ZapInForExactLp { pool, input_token, output_token, lp_out, amount_in_max } => {
                match self.derive_exact_lp_input(
                    input_token,
                    output_token,
                    lp_out,
                    amount_in_max,
                    &state,
                ) {
                    Ok(amount_in) => self.execute_zap_to_lp_with_state(
                        pool,
                        input_token,
                        output_token,
                        amount_in,
                        lp_out,
                        &state,
                        &incoming,
                    ),
                    Err(error) => Step::Revert { error },
                }
            },
            Job::ZapOut { pool, output_token, liquidity, min_out } => {
                match self.check_output(output_token, &state) {
                    Ok(_) => self.execute_zap_out_with_state(
                        pool,
                        output_token,
                        liquidity,
                        min_out,
                        &state,
                        &incoming,
                    ),
                    Err(error) => Step::Revert { error },
                }
            },
            Job::ZapOutForExactOut { pool, output_token, output_amount, max_lp } => {
                match self.derive_exact_out_liquidity(output_token, output_amount, max_lp, &state) {
                    Ok(liquidity) => self.execute_zap_out_with_state(
                        pool,
                        output_token,
                        liquidity,
                        output_amount,
                        &state,
                        &incoming,
                    ),
                    Err(error) => Step::Revert { error },
                }
            },
        }
    }

    /// Starts a zap.
    pub fn zap_in(
        &self,
        pool: AlkaneId,
        input_token: AlkaneId,
        output_token: AlkaneId,
        amount_in: u128,
        min_lp_tokens: u128,
        deadline: u128,
        height: u64,
        incoming: Vec<AlkaneTransfer>,
    ) -> (step: Step)
        ensures
            starts(
                step,
                ZapMessage::ZapIn {
                    pool,
                    input_token,
                    output_token,
                    amount_in,
                    min_lp_tokens,
                    deadline,
                },
                height,
                incoming@,
            ),
    {
        match self.check_deadline(height, deadline) {
            Ok(_) => {},
            Err(error) => {
                return Step::Revert { error };
            },
        }
        if input_token == output_token {
            return Step::Revert { error: ZapError::SameTokens };
        }
        self.read_pool_state(
            Job::ZapIn { pool, input_token, output_token, amount_in, min_lp_tokens },
            incoming,
        )
    }

    /// Starts a zap for a liquidity target.
    pub fn zap_in_for_exact_lp(
        &self,
        pool: AlkaneId,
        input_token: AlkaneId,
        output_token: AlkaneId,
        lp_out: u128,
        amount_in_max: u128,
        deadline: u128,
        height: u64,
        incoming: Vec<AlkaneTransfer>,
    ) -> (step: Step)
        ensures
            starts(
                step,
                ZapMessage::ZapInForExactLp {
                    pool,
                    input_token,
                    output_token,
                    lp_out,
                    amount_in_max,
                    deadline,
                },
                height,
                incoming@,
            ),
    {
        match self.check_deadline(height, deadline) {
            Ok(_) => {},
            Err(error) => {
                return Step::Revert { error };
            },
        }
        if input_token == output_token {
            return Step::Revert { error: ZapError::SameTokens };
        }
        if lp_out == 0 {
            return Step::Revert { error: ZapError::ZeroLpOut };
        }
        if amount_in_max == 0 {
            return Step::Revert { error: ZapError::ZeroAmountInMax };
        }
        self.read_pool_state(
            Job::ZapInForExactLp { pool, input_token, output_token, lp_out, amount_in_max },
            incoming,
        )
    }

    /// Starts an unzap.
    pub fn zap_out(
        &self,
        pool: AlkaneId,
        output_token: AlkaneId,
        liquidity: u128,
        min_out: u128,
        deadline: u128,
        height: u64,
        incoming: Vec<AlkaneTransfer>,
    ) -> (step: Step)
        ensures
            starts(
                step,
                ZapMessage::ZapOut { pool, output_token, liquidity, min_out, deadline },
                height,
                incoming@,
            ),
    {
        match self.check_deadline(height, deadline) {
            Ok(_) => {},
            Err(error) => {
                return Step::Revert { error };
            },
        }
        if liquidity == 0 {
            return Step::Revert { error: ZapError::ZeroLiquidity };
        }
        self.read_pool_state(Job::ZapOut { pool, output_token, liquidity, min_out }, incoming)
    }

    /// Starts an unzap for an output target.
    pub fn zap_out_for_exact_out(
        &self,
        pool: AlkaneId,
        output_token: AlkaneId,
        output_amount: u128,
        max_lp: u128,
        deadline: u128,
        height: u64,
        incoming: Vec<AlkaneTransfer>,
    ) -> (step: Step)
        ensures
            starts(
                step,
                ZapMessage::ZapOutForExactOut {
                    pool,
                    output_token,
                    output_amount,
                    max_lp,
                    deadline,
                },
                height,
                incoming@,
            ),
    {
        match self.check_deadline(height, deadline) {
            Ok(_) => {},
            Err(error) => {
                return Step::Revert { error };
            },
        }
        if output_amount == 0 {
            return Step::Revert { error: ZapError::ZeroOutputAmount };
        }
        if max_lp == 0 {
            return Step::Revert { error: ZapError::ZeroMaxLp };
        }
        self.read_pool_state(
            Job::ZapOutForExactOut { pool, output_token, output_amount, max_lp },
            incoming,
        )
    }

    /// Forwards liquidity into staking.
    pub fn stake(
        &self,
        pool: AlkaneId,
        staking: AlkaneId,
        liquidity: u128,
        lock_duration: u128,
        deadline: u128,
        height: u64,
        incoming: Vec<AlkaneTransfer>,
    ) -> (step: Step)
        ensures
            starts(
                step,
                ZapMessage::Stake { pool, staking, liquidity, lock_duration, deadline },
                height,
                incoming@,
            ),
    {
        match self.check_deadline(height, deadline) {
            Ok(_) => {},
            Err(error) => {
                return Step::Revert { error };
            },
        }
        match validate_lock_duration(lock_duration) {
            Ok(_) => {},
            Err(error) => {
                return Step::Revert { error };
            },
        }
        if liquidity == 0 {
            return Step::Revert { error: ZapError::ZeroLiquidity };
        }
        match self.extract_input(&incoming, pool, liquidity) {
            Ok((lp_amount, leftovers)) => Step::Ask {
                action: call_staking(staking, pool, lp_amount, lock_duration),
                pending: Pending::Forwarded { lp_amount, leftovers },
            },
            Err(error) => Step::Revert { error },
        }
    }

    /// Forwards liquidity into bonding.
    pub fn bond(
        &self,
        pool: AlkaneId,
        bonding: AlkaneId,
        liquidity: u128,
        min_fire_out: u128,
        deadline: u128,
        height: u64,
        incoming: Vec<AlkaneTransfer>,
    ) -> (step: Step)
        ensures
            starts(
                step,
                ZapMessage::Bond { pool, bonding, liquidity, min_fire_out, deadline },
                height,
                incoming@,
            ),
    {
        match self.check_deadline(height, deadline) {
            Ok(_) => {},
            Err(error) => {
                return Step::Revert { error };
            },
        }
        if liquidity == 0 {
            return Step::Revert { error: ZapError::ZeroLiquidity };
        }
        match self.extract_input(&incoming, pool, liquidity) {
            Ok((lp_amount, leftovers)) => Step::Ask {
                action: call_bonding(bonding, pool, lp_amount, min_fire_out),
                pending: Pending::Forwarded { lp_amount, leftovers },
            },
            Err(error) => Step::Revert { error },
        }
    }

    /// Ends a forwarding: what the other contract returned and the change go to
    /// the caller. The data is the forwarded amount followed by the other
    /// contract's data.
    pub fn finish_forward(
        &self,
        lp_amount: u128,
        leftovers: Vec<AlkaneTransfer>,
        response: CallResponse,
    ) -> (step: Step)
        ensures
            continues(step, Pending::Forwarded { lp_amount, leftovers }, response),
    {
        let CallResponse { alkanes, data } = response;
        let mut transfers = alkanes;
        append_transfers(&mut transfers, &leftovers);
        let mut out: Vec<u8> = Vec::new();
        push_u128(&mut out, lp_amount);
        let mut i: usize = 0;
        proof {
            assert(out@ =~= u128_bytes(lp_amount) + data@.take(0));
        }
        while i < data.len()
            invariant
                i <= data.len(),
                out@ == u128_bytes(lp_amount) + data@.take(i as int),
            decreases data.len() - i,
        {
            out.push(data[i]);
            proof {
                assert(out@ =~= u128_bytes(lp_amount) + data@.take(i + 1));
            }
            i = i + 1;
        }
        proof {
            assert(data@.take(i as int) =~= data@);
        }
        Step::Done { response: make_response(transfers, out) }
    }

    /// Hands the incoming tokens back unchanged.
    pub fn forward(&self, incoming: Vec<AlkaneTransfer>) -> (response: CallResponse)
        ensures
            response.alkanes@ == incoming@,
            response.data@ == Seq::<u8>::empty(),
    {
        CallResponse { alkanes: incoming, data: Vec::new() }
    }

    /// The contract's name, `Zippo`.
    pub fn get_name(&self) -> (response: CallResponse)
        ensures
            is_view_response(response, contract_name()),
    {
        let data: Vec<u8> = vec![0x5au8, 0x69u8, 0x70u8, 0x70u8, 0x6fu8];
        proof {
            assert(data@ =~= contract_name());
        }
        CallResponse { alkanes: Vec::new(), data }
    }

    /// Where the contract was made, `Winnipeg`.
    pub fn made_in(&self) -> (response: CallResponse)
        ensures
            is_view_response(response, contract_origin()),
    {
        let data: Vec<u8> = vec![
            0x57u8,
            0x69u8,
            0x6eu8,
            0x6eu8,
            0x69u8,
            0x70u8,
            0x65u8,
            0x67u8,
        ];
        proof {
            assert(data@ =~= contract_origin());
        }
        CallResponse { alkanes: Vec::new(), data }
    }

    /// Starts the operation that a message asks for, at a block height and with
    /// the tokens that came along.
    pub fn start(&self, message: ZapMessage, height: u64, incoming: Vec<AlkaneTransfer>) -> (step:
        Step)
        ensures
            starts(step, message, height, incoming@),
    {
        match message {
            ZapMessage::ZapIn {
                pool,
                input_token,
                output_token,
                amount_in,
                min_lp_tokens,
                deadline,
            } => self.zap_in(
                pool,
                input_token,
                output_token,
                amount_in,
                min_lp_tokens,
                deadline,
                height,
                incoming,
            ),
            ZapMessage::ZapInForExactLp {
                pool,
                input_token,
                output_token,
                lp_out,
                amount_in_max,
                deadline,
            } => self.zap_in_for_exact_lp(
                pool,
                input_token,
                output_token,
                lp_out,
                amount_in_max,
                deadline,
                height,
                incoming,
            ),
            ZapMessage::ZapOut { pool, output_token, liquidity, min_out, deadline } => self.zap_out(
                pool,
                output_token,
                liquidity,
                min_out,
                deadline,
                height,
                incoming,
            ),
            ZapMessage::ZapOutForExactOut {
                pool,
                output_token,
                output_amount,
                max_lp,
                deadline,
            } => self.zap_out_for_exact_out(
                pool,
                output_token,
                output_amount,
                max_lp,
                deadline,
                height,
                incoming,
            ),
            ZapMessage::Stake { pool, staking, liquidity, lock_duration, deadline } => self.stake(
                pool,
                staking,
                liquidity,
                lock_duration,
                deadline,
                height,
                incoming,
            ),
            ZapMessage::Bond { pool, bonding, liquidity, min_fire_out, deadline } => self.bond(
                pool,
                bonding,
                liquidity,
                min_fire_out,
                deadline,
                height,
                incoming,
            ),
            ZapMessage::Forward => Step::Done { response: self.forward(incoming) },
            ZapMessage::GetName => Step::Done { response: self.get_name() },
            ZapMessage::MadeIn => Step::Done { response: self.made_in() },
        }
    }

    /// Goes on with an operation once the call that it asked for has been made.
    pub fn resume(&self, pending: Pending, reply: Reply) -> (step: Step)
        ensures
            resumes(step, pending, reply),
    {
        let response = match reply {
            Reply::Returned { response } => response,
            Reply::Failed => {
                return Step::Revert { error: ZapError::CallFailed };
            },
        };
        match pending {
            Pending::Details { job, incoming } => self.query_fee_per_1000(job, incoming, response),
            Pending::Fee { job, details, incoming } => self.begin_job(
                job,
                details,
                incoming,
                response,
            ),
            Pending::Swap { swap } => self.deposit_swapped(swap, response),
            Pending::Deposit { deposit } => self.finish_zap_in(deposit, response),
            Pending::Burn { burn } => self.swap_withdrawn(burn, response),
            Pending::Unzap { unzap } => self.finish_zap_out(unzap, response),
            Pending::Forwarded { lp_amount, leftovers } => self.finish_forward(
                lp_amount,
                leftovers,
                response,
            ),
        }
    }
}

} // verus!
