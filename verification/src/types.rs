//! The values that the router exchanges with its host.

use vstd::prelude::*;

verus! {

/// Identifier of a contract, and of the token that the contract issues.
#[derive(Clone, Copy, Debug, PartialEq, Eq, Structural)]
pub struct AlkaneId {
    pub block: u128,
    pub tx: u128,
}

/// An amount of one token.
#[derive(Clone, Copy, Debug, PartialEq, Eq, Structural)]
pub struct AlkaneTransfer {
    pub id: AlkaneId,
    pub value: u128,
}

/// The target of a call and its numeric arguments, opcode first.
#[derive(Debug, PartialEq, Eq)]
pub struct Cellpack {
    pub target: AlkaneId,
    pub inputs: Vec<u128>,
}

/// What a call hands back: tokens and return data.
#[derive(Debug, PartialEq, Eq)]
pub struct CallResponse {
    pub alkanes: Vec<AlkaneTransfer>,
    pub data: Vec<u8>,
}

/// Why an operation is refused. Every refusal reverts the whole transaction.
#[derive(Clone, Copy, Debug, PartialEq, Eq, Structural)]
pub enum ZapError {
    /// The amount of input is zero.
    ZeroAmountIn,
    /// A reserve that a swap needs is zero.
    NoLiquidity,
    /// The liquidity target is zero.
    ZeroLpOut,
    /// The reserve on the input side is zero.
    ZeroInputReserve,
    /// The reserve on the output side is zero.
    ZeroOutputReserve,
    /// The pool has issued no liquidity tokens.
    ZeroTotalSupply,
    /// The pool takes the whole input as its fee.
    FeeTooHigh,
    /// The amount to swap does not fit in 128 bits.
    SwapAmountOverflow,
    /// The required input does not fit in 128 bits.
    AmountInOverflow,
    /// The output target is zero.
    ZeroOutputAmount,
    /// The output target is not below the reserve that it would come from.
    OutputExceedsReserve { output_amount: u128, reserve: u128 },
    /// The lock duration is not one of the accepted ones.
    InvalidLockDuration { lock_duration: u128 },
    /// The caller's pair is not the pool's pair.
    PairMismatch { input: AlkaneId, output: AlkaneId, token_a: AlkaneId, token_b: AlkaneId },
    /// The pool's description of itself is too short.
    PoolDetailsTooShort { length: usize },
    /// The pool's answer to the fee query is too short.
    FeeResponseTooShort { length: usize },
    /// The deadline has passed.
    Expired { height: u64, deadline: u128 },
    /// None of the required token came in.
    InputMissing { token: AlkaneId },
    /// Less of the required token came in than is to be spent.
    InputExceedsReceived { required: u128, received: u128, token: AlkaneId },
    /// The spending limit is zero.
    ZeroAmountInMax,
    /// A reserve of the pool is zero.
    PoolNotSeeded,
    /// The liquidity target costs more than the spending limit.
    AmountInExceedsMax { required: u128, max: u128 },
    /// The input is too small to be split into a swap and a deposit.
    AmountTooSmallToSplit,
    /// The swap paid out nothing.
    SwapReturnedNothing,
    /// One side of the deposit would be zero.
    DepositIsZero,
    /// The pool minted less than the caller's minimum.
    InsufficientLp { got: u128, want: u128 },
    /// Input and output token are the same.
    SameTokens,
    /// The amount of liquidity tokens is zero.
    ZeroLiquidity,
    /// The withdrawal paid out nothing on one side.
    BurnReturnedNothing,
    /// The output token is not in the pool's pair.
    OutputNotInPool { output: AlkaneId, token_a: AlkaneId, token_b: AlkaneId },
    /// The caller's minimum output was not reached.
    InsufficientOutput { got: u128, want: u128 },
    /// The limit on liquidity tokens to burn is zero.
    ZeroMaxLp,
    /// The output target costs more liquidity tokens than the limit.
    LpExceedsMax { required: u128, max: u128 },
    /// A call to another contract failed.
    CallFailed,
}

/// Ids are ordered by block, then by transaction.
pub open spec fn id_precedes(a: AlkaneId, b: AlkaneId) -> bool {
    a.block < b.block || (a.block == b.block && a.tx < b.tx)
}

/// A natural number cut off at the largest 128-bit value.
pub open spec fn capped(n: nat) -> u128 {
    if n > u128::MAX {
        u128::MAX
    } else {
        n as u128
    }
}

} // verus!
