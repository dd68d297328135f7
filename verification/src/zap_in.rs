//! Zap: one token in, liquidity out.
//!
//! With the pool's snapshot at hand, part of the input is swapped, and what is
//! left of it is deposited together with the swap's output.

use crate::amm_logic::{
    calculate_amount_in_for_exact_lp_checked, calculate_single_side_swap, calculate_swap_out,
    exact_lp_amount, exact_lp_refusal, optimal_split, plan_deposit, planned_deposit, swap_out,
};
use crate::bytes::{push_u128, u128_bytes};
use crate::pool::{
    call_add_liquidity, call_swap, orient_pair, orient_reserves, oriented_reserves, pair_in_order,
    pair_matches, swap_for,
};
use crate::protocol::{is_call, DepositPending, Pending, PoolState, Step, SwapPending};
use crate::transfers::{
    append_transfers, change_of, extract_refusal, make_response, response_carries, split_token,
    total_of, unless_zero, without,
};
use crate::types::{capped, AlkaneId, AlkaneTransfer, CallResponse, ZapError};
use crate::zap::Zap;
use vstd::prelude::*;

verus! {

/// What a zap has come to: the liquidity minted, what the pool's ratio left
/// over, and everything else that goes back to the caller.
#[derive(Debug, PartialEq, Eq)]
pub struct ZapInResult {
    pub lp_received: u128,
    pub pool: AlkaneId,
    pub input_token: AlkaneId,
    pub output_token: AlkaneId,
    pub residual_input: u128,
    pub residual_output: u128,
    pub leftovers: Vec<AlkaneTransfer>,
}

/// The split and the expected swap output of a zap.
pub open spec fn zap_in_split(amount_in: u128, state: PoolState, input_is_a: bool) -> u128 {
    let (reserve_in, _) = oriented_reserves(state, input_is_a);
    optimal_split(amount_in as nat, reserve_in as nat, state.fee_per_1000 as nat) as u128
}

/// What the pool owes for the swapped part of the input.
pub open spec fn zap_in_expected_out(amount_in: u128, state: PoolState, input_is_a: bool) -> u128 {
    let (reserve_in, reserve_out) = oriented_reserves(state, input_is_a);
    swap_out(
        zap_in_split(amount_in, state, input_is_a) as nat,
        reserve_in as nat,
        reserve_out as nat,
        state.fee_per_1000 as nat,
    ) as u128
}

/// The first reason, if any, why a zap does not get to its swap.
pub open spec fn zap_in_refusal(
    input_token: AlkaneId,
    output_token: AlkaneId,
    amount_in: u128,
    state: PoolState,
    incoming: Seq<AlkaneTransfer>,
) -> Option<ZapError> {
    if !pair_matches(input_token, output_token, state) {
        Some(
            ZapError::PairMismatch {
                input: input_token,
                output: output_token,
                token_a: state.token_a,
                token_b: state.token_b,
            },
        )
    } else if state.reserve_a == 0 || state.reserve_b == 0 {
        Some(ZapError::PoolNotSeeded)
    } else if extract_refusal(incoming, input_token, amount_in) is Some {
        extract_refusal(incoming, input_token, amount_in)
    } else if zap_in_split(amount_in, state, pair_in_order(input_token, output_token, state)) == 0 {
        Some(ZapError::AmountTooSmallToSplit)
    } else {
        None
    }
}

/// How a zap begins once the snapshot is there: it asks for the swap of the
/// optimal split, against the output that the snapshot implies.
pub open spec fn begins_zap_in(
    step: Step,
    pool: AlkaneId,
    input_token: AlkaneId,
    output_token: AlkaneId,
    amount_in: u128,
    min_lp_tokens: u128,
    state: PoolState,
    incoming: Seq<AlkaneTransfer>,
) -> bool {
    match zap_in_refusal(input_token, output_token, amount_in, state, incoming) {
        Some(error) => step == (Step::Revert { error }),
        None => {
            let input_is_a = pair_in_order(input_token, output_token, state);
            let s = zap_in_split(amount_in, state, input_is_a);
            let out = zap_in_expected_out(amount_in, state, input_is_a);
            &&& step matches Step::Ask { action, pending: Pending::Swap { swap } }
            &&& is_call(
                action,
                pool,
                swap_for(!input_is_a, out),
                seq![AlkaneTransfer { id: input_token, value: s }],
            )
            &&& swap.pool == pool
            &&& swap.input_token == input_token
            &&& swap.output_token == output_token
            &&& swap.min_lp_tokens == min_lp_tokens
            &&& swap.state == state
            &&& swap.input_is_a == input_is_a
            &&& swap.have_input == amount_in - s
            &&& swap.swap_amount == s
            &&& swap.leftovers@ == change_of(incoming, input_token, amount_in)
        },
    }
}

/// How much of the output token a swap's reply brought.
pub open spec fn swap_received(swap: SwapPending, received: Seq<AlkaneTransfer>) -> u128 {
    capped(total_of(received, swap.output_token))
}

/// The deposit that follows a swap, in input and output: what there is, capped
/// to the ratio of the reserves after the swap.
pub open spec fn deposit_after(swap: SwapPending, got: u128) -> (nat, nat) {
    let (reserve_in, reserve_out) = oriented_reserves(swap.state, swap.input_is_a);
    let new_in = capped((reserve_in + swap.swap_amount) as nat);
    let new_out: nat = if got > reserve_out {
        0
    } else {
        (reserve_out - got) as nat
    };
    planned_deposit(swap.have_input as nat, got as nat, new_in as nat, new_out)
}

/// The two deposits in the pool's order.
pub open spec fn deposit_parcel(swap: SwapPending, deposit: (nat, nat)) -> Seq<AlkaneTransfer> {
    let (amount_a, amount_b) = if swap.input_is_a {
        (deposit.0, deposit.1)
    } else {
        (deposit.1, deposit.0)
    };
    seq![
        AlkaneTransfer { id: swap.state.token_a, value: amount_a as u128 },
        AlkaneTransfer { id: swap.state.token_b, value: amount_b as u128 },
    ]
}

/// How a zap goes on after its swap: it asks for the deposit. Whatever the pool
/// returned besides the output joins the change.
pub open spec fn continues_zap_in(
    step: Step,
    swap: SwapPending,
    received: Seq<AlkaneTransfer>,
) -> bool {
    let got = swap_received(swap, received);
    let planned = deposit_after(swap, got);
    if got == 0 {
        step == (Step::Revert { error: ZapError::SwapReturnedNothing })
    } else if planned.0 == 0 || planned.1 == 0 {
        step == (Step::Revert { error: ZapError::DepositIsZero })
    } else {
        &&& step matches Step::Ask { action, pending: Pending::Deposit { deposit } }
        &&& is_call(action, swap.pool, seq![1u128], deposit_parcel(swap, planned))
        &&& deposit.pool == swap.pool
        &&& deposit.input_token == swap.input_token
        &&& deposit.output_token == swap.output_token
        &&& deposit.min_lp_tokens == swap.min_lp_tokens
        &&& deposit.residual_input == swap.have_input - planned.0
        &&& deposit.residual_output == got - planned.1
        &&& deposit.leftovers@ == swap.leftovers@ + without(received, swap.output_token)
    }
}

/// Everything that a zap hands back, given the reply to its deposit.
pub open spec fn zap_in_payout(
    deposit: DepositPending,
    received: Seq<AlkaneTransfer>,
) -> Seq<AlkaneTransfer> {
    let lp = capped(total_of(received, deposit.pool));
    seq![AlkaneTransfer { id: deposit.pool, value: lp }] + unless_zero(
        deposit.input_token,
        deposit.residual_input,
    ) + unless_zero(deposit.output_token, deposit.residual_output) + (deposit.leftovers@ + without(
        received,
        deposit.pool,
    ))
}

/// How a zap ends: with the minted liquidity, the residuals and the change, or
/// with a refusal where less than the minimum was minted.
pub open spec fn finishes_zap_in(
    step: Step,
    deposit: DepositPending,
    received: Seq<AlkaneTransfer>,
) -> bool {
    let lp = capped(total_of(received, deposit.pool));
    if lp < deposit.min_lp_tokens {
        step == (Step::Revert {
            error: ZapError::InsufficientLp { got: lp, want: deposit.min_lp_tokens },
        })
    } else {
        &&& step matches Step::Done { response }
        &&& response_carries(response, zap_in_payout(deposit, received), u128_bytes(lp))
    }
}

/// The first reason, if any, why a liquidity target does not get to its zap.
pub open spec fn exact_lp_input_refusal(
    input_token: AlkaneId,
    output_token: AlkaneId,
    lp_out: u128,
    amount_in_max: u128,
    state: PoolState,
) -> Option<ZapError> {
    let (reserve_in, reserve_out) = oriented_reserves(
        state,
        pair_in_order(input_token, output_token, state),
    );
    if !pair_matches(input_token, output_token, state) {
        Some(
            ZapError::PairMismatch {
                input: input_token,
                output: output_token,
                token_a: state.token_a,
                token_b: state.token_b,
            },
        )
    } else if state.reserve_a == 0 || state.reserve_b == 0 {
        Some(ZapError::PoolNotSeeded)
    } else if state.total_supply == 0 {
        Some(ZapError::ZeroTotalSupply)
    } else if exact_lp_refusal(
        lp_out as nat,
        reserve_in as nat,
        reserve_out as nat,
        state.total_supply as nat,
        state.fee_per_1000 as nat,
    ) is Some {
        exact_lp_refusal(
            lp_out as nat,
            reserve_in as nat,
            reserve_out as nat,
            state.total_supply as nat,
            state.fee_per_1000 as nat,
        )
    } else if exact_lp_input(input_token, output_token, lp_out, state) > amount_in_max {
        Some(
            ZapError::AmountInExceedsMax {
                required: exact_lp_input(input_token, output_token, lp_out, state),
                max: amount_in_max,
            },
        )
    } else {
        None
    }
}

/// The input that a liquidity target takes.
pub open spec fn exact_lp_input(
    input_token: AlkaneId,
    output_token: AlkaneId,
    lp_out: u128,
    state: PoolState,
) -> u128 {
    let (reserve_in, reserve_out) = oriented_reserves(
        state,
        pair_in_order(input_token, output_token, state),
    );
    exact_lp_amount(
        lp_out as nat,
        reserve_in as nat,
        reserve_out as nat,
        state.total_supply as nat,
        state.fee_per_1000 as nat,
    )->0 as u128
}

/// How a zap for a liquidity target begins once the snapshot is there: as the
/// zap of the input that the target takes, with the target as its minimum.
pub open spec fn begins_exact_lp(
    step: Step,
    pool: AlkaneId,
    input_token: AlkaneId,
    output_token: AlkaneId,
    lp_out: u128,
    amount_in_max: u128,
    state: PoolState,
    incoming: Seq<AlkaneTransfer>,
) -> bool {
    match exact_lp_input_refusal(input_token, output_token, lp_out, amount_in_max, state) {
        Some(error) => step == (Step::Revert { error }),
        None => begins_zap_in(
            step,
            pool,
            input_token,
            output_token,
            exact_lp_input(input_token, output_token, lp_out, state),
            lp_out,
            state,
            incoming,
        ),
    }
}

impl Zap {
    /// Takes exactly `amount_in` of `input_token` from what came in. The excess
    /// and all other tokens are the change.
    pub fn extract_input(
        &self,
        incoming: &Vec<AlkaneTransfer>,
        input_token: AlkaneId,
        amount_in: u128,
    ) -> (r: Result<(u128, Vec<AlkaneTransfer>), ZapError>)
        ensures
            match r {
                Ok((taken, change)) => {
                    &&& extract_refusal(incoming@, input_token, amount_in) is None
                    &&& taken == amount_in
                    &&& change@ == change_of(incoming@, input_token, amount_in)
                },
                Err(e) => extract_refusal(incoming@, input_token, amount_in) == Some(e),
            },
    {
        if amount_in == 0 {
            return Err(ZapError::ZeroAmountIn);
        }
        let (total_in, mut leftovers) = split_token(incoming, input_token);
        if total_in == 0 {
            return Err(ZapError::InputMissing { token: input_token });
        }
        if amount_in > total_in {
            return Err(
                ZapError::InputExceedsReceived {
                    required: amount_in,
                    received: total_in,
                    token: input_token,
                },
            );
        }
        let excess: u128 = total_in - amount_in;
        if excess > 0 {
            leftovers.push(AlkaneTransfer { id: input_token, value: excess });
        }
        proof {
            assert(leftovers@ =~= change_of(incoming@, input_token, amount_in));
        }
        Ok((amount_in, leftovers))
    }

    /// Begins a zap: checks the pair and the reserves, takes the input, and asks
    /// for the swap of the optimal split.
    pub fn execute_zap_to_lp_with_state(
        &self,
        pool: AlkaneId,
        input_token: AlkaneId,
        output_token: AlkaneId,
        amount_in: u128,
        min_lp_tokens: u128,
        state: &PoolState,
        incoming: &Vec<AlkaneTransfer>,
    ) -> (step: Step)
        ensures
            begins_zap_in(
                step,
                pool,
                input_token,
                output_token,
                amount_in,
                min_lp_tokens,
                *state,
                incoming@,
            ),
    {
        let input_is_a = match orient_pair(input_token, output_token, state) {
            Ok(input_is_a) => input_is_a,
            Err(error) => {
                return Step::Revert { error };
            },
        };
        if state.reserve_a == 0 || state.reserve_b == 0 {
            return Step::Revert { error: ZapError::PoolNotSeeded };
        }
        let (amount_in, leftovers) = match self.extract_input(incoming, input_token, amount_in) {
            Ok(pair) => pair,
            Err(error) => {
                return Step::Revert { error };
            },
        };
        let (reserve_in, reserve_out) = orient_reserves(state, input_is_a);
        let swap_amount: u128 = calculate_single_side_swap(
            amount_in,
            reserve_in,
            state.fee_per_1000,
        );
        if swap_amount == 0 {
            return Step::Revert { error: ZapError::AmountTooSmallToSplit };
        }
        let expected_out: u128 = match calculate_swap_out(
            swap_amount,
            reserve_in,
            reserve_out,
            state.fee_per_1000,
        ) {
            Ok(out) => out,
            Err(error) => {
                return Step::Revert { error };
            },
        };
        let action = if input_is_a {
            call_swap(pool, input_token, swap_amount, 0, expected_out)
        } else {
            call_swap(pool, input_token, swap_amount, expected_out, 0)
        };
        Step::Ask {
            action,
            pending: Pending::Swap {
                swap: SwapPending {
                    pool,
                    input_token,
                    output_token,
                    min_lp_tokens,
                    state: *state,
                    input_is_a,
                    have_input: amount_in - swap_amount,
                    swap_amount,
                    leftovers,
                },
            },
        }
    }

    /// Goes on after the swap: asks for the deposit of what is left of the input
    /// and of what the swap paid out, capped to the pool's ratio.
    pub fn deposit_swapped(&self, swap: SwapPending, response: CallResponse) -> (step: Step)
        ensures
            continues_zap_in(step, swap, response.alkanes@),
    {
        let (got_output, rest) = split_token(&response.alkanes, swap.output_token);
        if got_output == 0 {
            return Step::Revert { error: ZapError::SwapReturnedNothing };
        }
        let mut leftovers = swap.leftovers;
        append_transfers(&mut leftovers, &rest);
        let (reserve_in, reserve_out) = orient_reserves(&swap.state, swap.input_is_a);
        let new_reserve_in: u128 = reserve_in.saturating_add(swap.swap_amount);
        let new_reserve_out: u128 = reserve_out.saturating_sub(got_output);
        let (deposit_input, deposit_output) = plan_deposit(
            swap.have_input,
            got_output,
            new_reserve_in,
            new_reserve_out,
        );
        if deposit_input == 0 || deposit_output == 0 {
            return Step::Revert { error: ZapError::DepositIsZero };
        }
        let (amount_a, amount_b) = if swap.input_is_a {
            (deposit_input, deposit_output)
        } else {
            (deposit_output, deposit_input)
        };
        let action = call_add_liquidity(
            swap.pool,
            swap.state.token_a,
            amount_a,
            swap.state.token_b,
            amount_b,
        );
        Step::Ask {
            action,
            pending: Pending::Deposit {
                deposit: DepositPending {
                    pool: swap.pool,
                    input_token: swap.input_token,
                    output_token: swap.output_token,
                    min_lp_tokens: swap.min_lp_tokens,
                    residual_input: swap.have_input - deposit_input,
                    residual_output: got_output - deposit_output,
                    leftovers,
                },
            },
        }
    }

    /// Packages a zap's result for the caller: `transfers`, then the residuals
    /// and the leftovers, duplicates collapsed. The data is the minted amount.
    pub fn package_zap_response(r: ZapInResult, transfers: Vec<AlkaneTransfer>) -> (response:
        CallResponse)
        ensures
            response_carries(
                response,
                transfers@ + unless_zero(r.input_token, r.residual_input) + unless_zero(
                    r.output_token,
                    r.residual_output,
                ) + r.leftovers@,
                u128_bytes(r.lp_received),
            ),
    {
        let ghost given = transfers@;
        let mut transfers = transfers;
        if r.residual_input > 0 {
            transfers.push(AlkaneTransfer { id: r.input_token, value: r.residual_input });
        }
        proof {
            assert(transfers@ =~= given + unless_zero(r.input_token, r.residual_input));
        }
        if r.residual_output > 0 {
            transfers.push(AlkaneTransfer { id: r.output_token, value: r.residual_output });
        }
        proof {
            assert(transfers@ =~= given + unless_zero(r.input_token, r.residual_input)
                + unless_zero(r.output_token, r.residual_output));
        }
        append_transfers(&mut transfers, &r.leftovers);
        let mut data: Vec<u8> = Vec::new();
        push_u128(&mut data, r.lp_received);
        proof {
            assert(data@ =~= u128_bytes(r.lp_received));
        }
        make_response(transfers, data)
    }

    /// Ends a zap after its deposit: the minted liquidity goes to the caller,
    /// unless it is below the minimum.
    pub fn finish_zap_in(&self, deposit: DepositPending, response: CallResponse) -> (step: Step)
        ensures
            finishes_zap_in(step, deposit, response.alkanes@),
    {
        let (lp_received, rest) = split_token(&response.alkanes, deposit.pool);
        if lp_received < deposit.min_lp_tokens {
            return Step::Revert {
                error: ZapError::InsufficientLp { got: lp_received, want: deposit.min_lp_tokens },
            };
        }
        let mut leftovers = deposit.leftovers;
        append_transfers(&mut leftovers, &rest);
        let lp = vec![AlkaneTransfer { id: deposit.pool, value: lp_received }];
        proof {
            assert(lp@ =~= seq![AlkaneTransfer { id: deposit.pool, value: lp_received }]);
        }
        let response = Zap::package_zap_response(
            ZapInResult {
                lp_received,
                pool: deposit.pool,
                input_token: deposit.input_token,
                output_token: deposit.output_token,
                residual_input: deposit.residual_input,
                residual_output: deposit.residual_output,
                leftovers,
            },
            lp,
        );
        Step::Done { response }
    }

    /// The input that a liquidity target takes, within the caller's limit.
    pub fn derive_exact_lp_input(
        &self,
        input_token: AlkaneId,
        output_token: AlkaneId,
        lp_out: u128,
        amount_in_max: u128,
        state: &PoolState,
    ) -> (r: Result<u128, ZapError>)
        ensures
            match r {
                Ok(amount_in) => {
                    &&& exact_lp_input_refusal(
                        input_token,
                        output_token,
                        lp_out,
                        amount_in_max,
                        *state,
                    ) is None
                    &&& amount_in == exact_lp_input(input_token, output_token, lp_out, *state)
                },
                Err(e) => exact_lp_input_refusal(
                    input_token,
                    output_token,
                    lp_out,
                    amount_in_max,
                    *state,
                ) == Some(e),
            },
    {
        let input_is_a = match orient_pair(input_token, output_token, state) {
            Ok(input_is_a) => input_is_a,
            Err(error) => {
                return Err(error);
            },
        };
        if state.reserve_a == 0 || state.reserve_b == 0 {
            return Err(ZapError::PoolNotSeeded);
        }
        if state.total_supply == 0 {
            return Err(ZapError::ZeroTotalSupply);
        }
        let (reserve_in, reserve_out) = orient_reserves(state, input_is_a);
        let amount_in: u128 = match calculate_amount_in_for_exact_lp_checked(
            lp_out,
            reserve_in,
            reserve_out,
            state.total_supply,
            state.fee_per_1000,
        ) {
            Ok((amount_in, _)) => amount_in,
            Err(error) => {
                return Err(error);
            },
        };
        if amount_in > amount_in_max {
            return Err(ZapError::AmountInExceedsMax { required: amount_in, max: amount_in_max });
        }
        Ok(amount_in)
    }
}

} // verus!
