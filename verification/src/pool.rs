//! The router's view of a pool: the snapshot, its encoding, and the calls.

use crate::bytes::{le_value, read_u128};
use crate::protocol::{is_call, is_static_call, Action, PoolDetails, PoolState};
use crate::types::{AlkaneId, AlkaneTransfer, Cellpack, ZapError};
use vstd::prelude::*;

verus! {

/// The 128-bit integer at a byte offset.
pub open spec fn field_at(data: Seq<u8>, at: int) -> u128 {
    le_value(data.subrange(at, at + 16)) as u128
}

/// The snapshot that a pool's description of itself encodes: seven integers,
/// the two token ids, the two reserves and the total supply.
pub open spec fn details_of(data: Seq<u8>) -> PoolDetails {
    PoolDetails {
        token_a: AlkaneId { block: field_at(data, 0), tx: field_at(data, 16) },
        token_b: AlkaneId { block: field_at(data, 32), tx: field_at(data, 48) },
        reserve_a: field_at(data, 64),
        reserve_b: field_at(data, 80),
        total_supply: field_at(data, 96),
    }
}

/// Reads a pool's description of itself. Bytes beyond the seven integers are
/// ignored.
pub fn parse_pool_details(data: &Vec<u8>) -> (r: Result<PoolDetails, ZapError>)
    ensures
        r == (if data.len() < 112 {
            Err::<PoolDetails, ZapError>(ZapError::PoolDetailsTooShort { length: data.len() })
        } else {
            Ok(details_of(data@))
        }),
{
    if data.len() < 112 {
        return Err(ZapError::PoolDetailsTooShort { length: data.len() });
    }
    Ok(
        PoolDetails {
            token_a: AlkaneId { block: read_u128(data, 0), tx: read_u128(data, 16) },
            token_b: AlkaneId { block: read_u128(data, 32), tx: read_u128(data, 48) },
            reserve_a: read_u128(data, 64),
            reserve_b: read_u128(data, 80),
            total_supply: read_u128(data, 96),
        },
    )
}

/// Reads a pool's fee. An answer that is too short is an error: an assumed fee
/// would misprice the swap.
pub fn parse_total_fee(data: &Vec<u8>) -> (r: Result<u128, ZapError>)
    ensures
        r == (if data.len() < 16 {
            Err::<u128, ZapError>(ZapError::FeeResponseTooShort { length: data.len() })
        } else {
            Ok(field_at(data@, 0))
        }),
{
    if data.len() < 16 {
        return Err(ZapError::FeeResponseTooShort { length: data.len() });
    }
    Ok(read_u128(data, 0))
}

/// The full snapshot.
pub open spec fn state_with_fee(details: PoolDetails, fee_per_1000: u128) -> PoolState {
    PoolState {
        token_a: details.token_a,
        token_b: details.token_b,
        reserve_a: details.reserve_a,
        reserve_b: details.reserve_b,
        total_supply: details.total_supply,
        fee_per_1000,
    }
}

/// Completes a snapshot with the pool's fee.
pub fn with_fee(details: PoolDetails, fee_per_1000: u128) -> (r: PoolState)
    ensures
        r == state_with_fee(details, fee_per_1000),
{
    PoolState {
        token_a: details.token_a,
        token_b: details.token_b,
        reserve_a: details.reserve_a,
        reserve_b: details.reserve_b,
        total_supply: details.total_supply,
        fee_per_1000,
    }
}

/// Whether the input is the pool's first token and the output its second.
pub open spec fn pair_in_order(input: AlkaneId, output: AlkaneId, state: PoolState) -> bool {
    input == state.token_a && output == state.token_b
}

/// Whether input and output are the pool's pair, in either order.
pub open spec fn pair_matches(input: AlkaneId, output: AlkaneId, state: PoolState) -> bool {
    pair_in_order(input, output, state) || pair_in_order(output, input, state)
}

/// Checks that the caller's pair is exactly the pool's pair, and tells whether
/// the input is the pool's first token.
pub fn orient_pair(input_token: AlkaneId, output_token: AlkaneId, state: &PoolState) -> (r: Result<
    bool,
    ZapError,
>)
    ensures
        r == (if pair_matches(input_token, output_token, *state) {
            Ok::<bool, ZapError>(pair_in_order(input_token, output_token, *state))
        } else {
            Err(
                ZapError::PairMismatch {
                    input: input_token,
                    output: output_token,
                    token_a: state.token_a,
                    token_b: state.token_b,
                },
            )
        }),
{
    if input_token == state.token_a && output_token == state.token_b {
        Ok(true)
    } else if input_token == state.token_b && output_token == state.token_a {
        Ok(false)
    } else {
        Err(
            ZapError::PairMismatch {
                input: input_token,
                output: output_token,
                token_a: state.token_a,
                token_b: state.token_b,
            },
        )
    }
}

/// The reserves on the input and on the output side.
pub open spec fn oriented_reserves(state: PoolState, input_is_a: bool) -> (u128, u128) {
    if input_is_a {
        (state.reserve_a, state.reserve_b)
    } else {
        (state.reserve_b, state.reserve_a)
    }
}

/// The reserves on the input and on the output side.
pub fn orient_reserves(state: &PoolState, input_is_a: bool) -> (r: (u128, u128))
    ensures
        r == oriented_reserves(*state, input_is_a),
{
    if input_is_a {
        (state.reserve_a, state.reserve_b)
    } else {
        (state.reserve_b, state.reserve_a)
    }
}

/// Asks the pool for its description of itself (opcode 999).
pub fn call_pool_details(pool: AlkaneId) -> (r: Action)
    ensures
        is_static_call(r, pool, seq![999u128]),
{
    Action::StaticCall { cellpack: Cellpack { target: pool, inputs: vec![999u128] } }
}

/// Asks the pool for its fee (opcode 20).
pub fn call_total_fee(pool: AlkaneId) -> (r: Action)
    ensures
        is_static_call(r, pool, seq![20u128]),
{
    Action::StaticCall { cellpack: Cellpack { target: pool, inputs: vec![20u128] } }
}

/// The arguments of a swap: the requested outputs in the pool's order, and no
/// receiver, so that the output comes back to the router.
pub open spec fn swap_inputs(amount_0_out: u128, amount_1_out: u128) -> Seq<u128> {
    seq![3u128, amount_0_out, amount_1_out, 0u128, 0u128, 0u128]
}

/// The arguments of a swap that pays out one token of the pair.
pub open spec fn swap_for(output_is_a: bool, amount_out: u128) -> Seq<u128> {
    if output_is_a {
        swap_inputs(amount_out, 0)
    } else {
        swap_inputs(0, amount_out)
    }
}

/// Swap (opcode 3).
pub fn call_swap(
    pool: AlkaneId,
    input_token: AlkaneId,
    amount_in: u128,
    amount_0_out: u128,
    amount_1_out: u128,
) -> (r: Action)
    ensures
        is_call(
            r,
            pool,
            swap_inputs(amount_0_out, amount_1_out),
            seq![AlkaneTransfer { id: input_token, value: amount_in }],
        ),
{
    Action::Call {
        cellpack: Cellpack {
            target: pool,
            inputs: vec![3u128, amount_0_out, amount_1_out, 0u128, 0u128, 0u128],
        },
        parcel: vec![AlkaneTransfer { id: input_token, value: amount_in }],
    }
}

/// Add liquidity (opcode 1). The pool takes exactly its two tokens.
pub fn call_add_liquidity(
    pool: AlkaneId,
    token_0: AlkaneId,
    amount_0: u128,
    token_1: AlkaneId,
    amount_1: u128,
) -> (r: Action)
    ensures
        is_call(
            r,
            pool,
            seq![1u128],
            seq![
                AlkaneTransfer { id: token_0, value: amount_0 },
                AlkaneTransfer { id: token_1, value: amount_1 },
            ],
        ),
{
    Action::Call {
        cellpack: Cellpack { target: pool, inputs: vec![1u128] },
        parcel: vec![
            AlkaneTransfer { id: token_0, value: amount_0 },
            AlkaneTransfer { id: token_1, value: amount_1 },
        ],
    }
}

/// Withdraw and burn (opcode 2). The liquidity token's id is the pool's own.
pub fn call_withdraw_and_burn(pool: AlkaneId, lp_amount: u128) -> (r: Action)
    ensures
        is_call(r, pool, seq![2u128], seq![AlkaneTransfer { id: pool, value: lp_amount }]),
{
    Action::Call {
        cellpack: Cellpack { target: pool, inputs: vec![2u128] },
        parcel: vec![AlkaneTransfer { id: pool, value: lp_amount }],
    }
}

/// Forwards liquidity into staking (opcode 1: lock duration, amount).
pub fn call_staking(
    staking: AlkaneId,
    pool: AlkaneId,
    lp_amount: u128,
    lock_duration: u128,
) -> (r: Action)
    ensures
        is_call(
            r,
            staking,
            seq![1u128, lock_duration, lp_amount],
            seq![AlkaneTransfer { id: pool, value: lp_amount }],
        ),
{
    Action::Call {
        cellpack: Cellpack { target: staking, inputs: vec![1u128, lock_duration, lp_amount] },
        parcel: vec![AlkaneTransfer { id: pool, value: lp_amount }],
    }
}

/// Forwards liquidity into bonding (opcode 1: amount, least payout).
pub fn call_bonding(
    bonding: AlkaneId,
    pool: AlkaneId,
    lp_amount: u128,
    min_fire_out: u128,
) -> (r: Action)
    ensures
        is_call(
            r,
            bonding,
            seq![1u128, lp_amount, min_fire_out],
            seq![AlkaneTransfer { id: pool, value: lp_amount }],
        ),
{
    Action::Call {
        cellpack: Cellpack { target: bonding, inputs: vec![1u128, lp_amount, min_fire_out] },
        parcel: vec![AlkaneTransfer { id: pool, value: lp_amount }],
    }
}

} // verus!
