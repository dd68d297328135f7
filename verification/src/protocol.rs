//! How the router talks to its host: the messages that it accepts, the calls
//! that it asks for, and what it keeps while it waits for their replies.
//!
//! The router never calls another contract itself. A step either ends the
//! operation or asks the host for one call and hands it a `Pending` value; the
//! host performs the call and resumes the operation with the reply.

use crate::types::{AlkaneId, AlkaneTransfer, CallResponse, Cellpack, ZapError};
use vstd::prelude::*;

verus! {

/// The operations of the router.
#[derive(Clone, Copy, Debug, PartialEq, Eq, Structural)]
pub enum ZapMessage {
    /// Zap: spends exactly `amount_in` of `input_token` and returns at least
    /// `min_lp_tokens` of the pool's liquidity token. The excess of
    /// `input_token` and all other incoming tokens come back as change.
    ZapIn {
        pool: AlkaneId,
        input_token: AlkaneId,
        output_token: AlkaneId,
        amount_in: u128,
        min_lp_tokens: u128,
        deadline: u128,
    },
    /// Zap for a liquidity target: spends at most `amount_in_max` for at least
    /// `lp_out`.
    ZapInForExactLp {
        pool: AlkaneId,
        input_token: AlkaneId,
        output_token: AlkaneId,
        lp_out: u128,
        amount_in_max: u128,
        deadline: u128,
    },
    /// Unzap: burns exactly `liquidity` and returns at least `min_out` of
    /// `output_token`.
    ZapOut {
        pool: AlkaneId,
        output_token: AlkaneId,
        liquidity: u128,
        min_out: u128,
        deadline: u128,
    },
    /// Forwards exactly `liquidity` into `staking`, for one of the accepted lock
    /// durations.
    Stake {
        pool: AlkaneId,
        staking: AlkaneId,
        liquidity: u128,
        lock_duration: u128,
        deadline: u128,
    },
    /// Forwards exactly `liquidity` into `bonding`.
    Bond {
        pool: AlkaneId,
        bonding: AlkaneId,
        liquidity: u128,
        min_fire_out: u128,
        deadline: u128,
    },
    /// Unzap for an output target: burns at most `max_lp` for at least
    /// `output_amount`.
    ZapOutForExactOut {
        pool: AlkaneId,
        output_token: AlkaneId,
        output_amount: u128,
        max_lp: u128,
        deadline: u128,
    },
    /// Hands the incoming tokens back unchanged.
    Forward,
    /// Returns the contract's name.
    GetName,
    /// Returns where the contract was made.
    MadeIn,
}

/// A call that the router asks its host for.
#[derive(Debug, PartialEq, Eq)]
pub enum Action {
    /// A call that reads only.
    StaticCall { cellpack: Cellpack },
    /// A call that carries tokens.
    Call { cellpack: Cellpack, parcel: Vec<AlkaneTransfer> },
}

/// What became of a call.
#[derive(Debug, PartialEq, Eq)]
pub enum Reply {
    Returned { response: CallResponse },
    Failed,
}

/// A snapshot of a pool without its fee.
#[derive(Clone, Copy, Debug, PartialEq, Eq, Structural)]
pub struct PoolDetails {
    pub token_a: AlkaneId,
    pub token_b: AlkaneId,
    pub reserve_a: u128,
    pub reserve_b: u128,
    pub total_supply: u128,
}

/// A snapshot of a pool, read once per operation. `token_a` comes first in the
/// pool's own order.
#[derive(Clone, Copy, Debug, PartialEq, Eq, Structural)]
pub struct PoolState {
    pub token_a: AlkaneId,
    pub token_b: AlkaneId,
    pub reserve_a: u128,
    pub reserve_b: u128,
    pub total_supply: u128,
    pub fee_per_1000: u128,
}

/// What to do once the pool's snapshot is there.
#[derive(Clone, Copy, Debug, PartialEq, Eq, Structural)]
pub enum Job {
    ZapIn {
        pool: AlkaneId,
        input_token: AlkaneId,
        output_token: AlkaneId,
        amount_in: u128,
        min_lp_tokens: u128,
    },
    ZapInForExactLp {
        pool: AlkaneId,
        input_token: AlkaneId,
        output_token: AlkaneId,
        lp_out: u128,
        amount_in_max: u128,
    },
    ZapOut { pool: AlkaneId, output_token: AlkaneId, liquidity: u128, min_out: u128 },
    ZapOutForExactOut {
        pool: AlkaneId,
        output_token: AlkaneId,
        output_amount: u128,
        max_lp: u128,
    },
}

/// A zap whose swap is under way.
#[derive(Debug, PartialEq, Eq)]
pub struct SwapPending {
    pub pool: AlkaneId,
    pub input_token: AlkaneId,
    pub output_token: AlkaneId,
    pub min_lp_tokens: u128,
    pub state: PoolState,
    pub input_is_a: bool,
    /// Input kept back for the deposit.
    pub have_input: u128,
    /// Input that went into the swap.
    pub swap_amount: u128,
    pub leftovers: Vec<AlkaneTransfer>,
}

/// A zap whose deposit is under way.
#[derive(Debug, PartialEq, Eq)]
pub struct DepositPending {
    pub pool: AlkaneId,
    pub input_token: AlkaneId,
    pub output_token: AlkaneId,
    pub min_lp_tokens: u128,
    /// Input and output that the pool's ratio left over.
    pub residual_input: u128,
    pub residual_output: u128,
    pub leftovers: Vec<AlkaneTransfer>,
}

/// An unzap whose withdrawal is under way.
#[derive(Debug, PartialEq, Eq)]
pub struct BurnPending {
    pub pool: AlkaneId,
    pub output_token: AlkaneId,
    pub min_out: u128,
    pub state: PoolState,
    pub leftovers: Vec<AlkaneTransfer>,
}

/// An unzap whose swap is under way.
#[derive(Debug, PartialEq, Eq)]
pub struct UnzapPending {
    pub output_token: AlkaneId,
    pub min_out: u128,
    /// What the withdrawal paid out in the output token.
    pub own_side: u128,
    pub leftovers: Vec<AlkaneTransfer>,
}

/// What the router keeps while it waits for a reply.
#[derive(Debug, PartialEq, Eq)]
pub enum Pending {
    /// Waiting for the pool's description of itself.
    Details { job: Job, incoming: Vec<AlkaneTransfer> },
    /// Waiting for the pool's fee.
    Fee { job: Job, details: PoolDetails, incoming: Vec<AlkaneTransfer> },
    /// Waiting for the swap of a zap.
    Swap { swap: SwapPending },
    /// Waiting for the deposit of a zap.
    Deposit { deposit: DepositPending },
    /// Waiting for the withdrawal of an unzap.
    Burn { burn: BurnPending },
    /// Waiting for the swap of an unzap.
    Unzap { unzap: UnzapPending },
    /// Waiting for the contract that liquidity was forwarded to.
    Forwarded { lp_amount: u128, leftovers: Vec<AlkaneTransfer> },
}

/// How an operation goes on.
#[derive(Debug, PartialEq, Eq)]
pub enum Step {
    /// The host is to perform `action` and resume `pending` with the reply.
    Ask { action: Action, pending: Pending },
    /// The operation has succeeded.
    Done { response: CallResponse },
    /// The operation is refused; the host reverts everything.
    Revert { error: ZapError },
}

/// Whether an action reads from `target` with the given arguments.
pub open spec fn is_static_call(action: Action, target: AlkaneId, inputs: Seq<u128>) -> bool {
    &&& action matches Action::StaticCall { cellpack }
    &&& cellpack.target == target
    &&& cellpack.inputs@ =~= inputs
}

/// Whether an action calls `target` with the given arguments and tokens.
pub open spec fn is_call(
    action: Action,
    target: AlkaneId,
    inputs: Seq<u128>,
    parcel: Seq<AlkaneTransfer>,
) -> bool {
    &&& action matches Action::Call { cellpack, parcel: carried }
    &&& cellpack.target == target
    &&& cellpack.inputs@ =~= inputs
    &&& carried@ =~= parcel
}

} // verus!
