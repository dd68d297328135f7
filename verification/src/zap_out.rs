//! Unzap: liquidity in, one token out.
//!
//! The liquidity is burned for its share of both tokens, and the unwanted side
//! is swapped into the wanted one.

use crate::amm_logic::{
    calculate_lp_for_exact_out, calculate_swap_out, swap_out, unzap_liquidity, unzap_refusal,
};
use crate::bytes::{push_u128, u128_bytes};
use crate::pool::{call_swap, call_withdraw_and_burn, swap_for};
use crate::protocol::{is_call, BurnPending, Pending, PoolState, Step, UnzapPending};
use crate::transfers::{
    append_transfers, change_of, extract_refusal, make_response, response_carries, split_token,
    total_of, without,
};
use crate::types::{capped, AlkaneId, AlkaneTransfer, CallResponse, ZapError};
use crate::zap::Zap;
use vstd::prelude::*;

verus! {

/// How an unzap begins once the snapshot is there: it asks for the withdrawal
/// of exactly `liquidity`.
pub open spec fn begins_zap_out(
    step: Step,
    pool: AlkaneId,
    output_token: AlkaneId,
    liquidity: u128,
    min_out: u128,
    state: PoolState,
    incoming: Seq<AlkaneTransfer>,
) -> bool {
    match extract_refusal(incoming, pool, liquidity) {
        Some(error) => step == (Step::Revert { error }),
        None => {
            &&& step matches Step::Ask { action, pending: Pending::Burn { burn } }
            &&& is_call(
                action,
                pool,
                seq![2u128],
                seq![AlkaneTransfer { id: pool, value: liquidity }],
            )
            &&& burn.pool == pool
            &&& burn.output_token == output_token
            &&& burn.min_out == min_out
            &&& burn.state == state
            &&& burn.leftovers@ == change_of(incoming, pool, liquidity)
        },
    }
}

/// The two sides of a withdrawal, and what else the pool returned.
pub open spec fn withdrawn(burn: BurnPending, received: Seq<AlkaneTransfer>) -> (
    u128,
    u128,
    Seq<AlkaneTransfer>,
) {
    let not_a = without(received, burn.state.token_a);
    (
        capped(total_of(received, burn.state.token_a)),
        capped(total_of(not_a, burn.state.token_b)),
        without(not_a, burn.state.token_b),
    )
}

/// A reserve once an amount has been withdrawn from it.
pub open spec fn reserve_after(reserve: u128, amount: u128) -> u128 {
    if amount > reserve {
        0
    } else {
        (reserve - amount) as u128
    }
}

/// How an unzap ends: with the output and the change, or with a refusal where
/// the output is below the minimum.
pub open spec fn settles_zap_out(
    step: Step,
    output_token: AlkaneId,
    total_out: u128,
    min_out: u128,
    leftovers: Seq<AlkaneTransfer>,
) -> bool {
    if total_out < min_out {
        step == (Step::Revert {
            error: ZapError::InsufficientOutput { got: total_out, want: min_out },
        })
    } else {
        &&& step matches Step::Done { response }
        &&& response_carries(
            response,
            seq![AlkaneTransfer { id: output_token, value: total_out }] + leftovers,
            u128_bytes(total_out),
        )
    }
}

/// How an unzap goes on after its withdrawal: it asks for the swap of the
/// unwanted side, against the output that the remaining reserves imply. Where a
/// reserve is used up there is nothing to swap against; the unwanted side then
/// goes back to the caller as it is.
pub open spec fn continues_zap_out(
    step: Step,
    burn: BurnPending,
    received: Seq<AlkaneTransfer>,
) -> bool {
    let (amt_a, amt_b, rest) = withdrawn(burn, received);
    let left_a = reserve_after(burn.state.reserve_a, amt_a);
    let left_b = reserve_after(burn.state.reserve_b, amt_b);
    let output_is_a = burn.output_token == burn.state.token_a;
    let (input_token, input_amt, own_side, r_in, r_out) = if output_is_a {
        (burn.state.token_b, amt_b, amt_a, left_b, left_a)
    } else {
        (burn.state.token_a, amt_a, amt_b, left_a, left_b)
    };
    if amt_a == 0 || amt_b == 0 {
        step == (Step::Revert { error: ZapError::BurnReturnedNothing })
    } else if r_in > 0 && r_out > 0 {
        let out = swap_out(
            input_amt as nat,
            r_in as nat,
            r_out as nat,
            burn.state.fee_per_1000 as nat,
        ) as u128;
        &&& step matches Step::Ask { action, pending: Pending::Unzap { unzap } }
        &&& is_call(
            action,
            burn.pool,
            swap_for(output_is_a, out),
            seq![AlkaneTransfer { id: input_token, value: input_amt }],
        )
        &&& unzap.output_token == burn.output_token
        &&& unzap.min_out == burn.min_out
        &&& unzap.own_side == own_side
        &&& unzap.leftovers@ == burn.leftovers@ + rest
    } else {
        settles_zap_out(
            step,
            burn.output_token,
            own_side,
            burn.min_out,
            burn.leftovers@ + rest + seq![AlkaneTransfer { id: input_token, value: input_amt }],
        )
    }
}

/// How an unzap ends after its swap: the withdrawn side and the swap's output
/// together are what the caller gets.
pub open spec fn finishes_zap_out(
    step: Step,
    unzap: UnzapPending,
    received: Seq<AlkaneTransfer>,
) -> bool {
    let got = capped(total_of(received, unzap.output_token));
    settles_zap_out(
        step,
        unzap.output_token,
        capped((unzap.own_side + got) as nat),
        unzap.min_out,
        unzap.leftovers@ + without(received, unzap.output_token),
    )
}

/// The reserve of the output token.
pub open spec fn output_reserve(output_token: AlkaneId, state: PoolState) -> u128 {
    if output_token == state.token_a {
        state.reserve_a
    } else {
        state.reserve_b
    }
}

/// The refusal of an output token that the pool does not have.
pub open spec fn output_refusal(output_token: AlkaneId, state: PoolState) -> Option<ZapError> {
    if output_token != state.token_a && output_token != state.token_b {
        Some(
            ZapError::OutputNotInPool {
                output: output_token,
                token_a: state.token_a,
                token_b: state.token_b,
            },
        )
    } else {
        None
    }
}

/// The liquidity that an output target takes.
pub open spec fn exact_out_liquidity(
    output_token: AlkaneId,
    output_amount: u128,
    state: PoolState,
) -> u128 {
    capped(
        unzap_liquidity(
            output_amount as nat,
            output_reserve(output_token, state) as nat,
            state.total_supply as nat,
            state.fee_per_1000 as nat,
        ) + 3,
    )
}

/// The first reason, if any, why an output target does not get to its unzap.
pub open spec fn exact_out_refusal(
    output_token: AlkaneId,
    output_amount: u128,
    max_lp: u128,
    state: PoolState,
) -> Option<ZapError> {
    if output_refusal(output_token, state) is Some {
        output_refusal(output_token, state)
    } else if state.total_supply == 0 {
        Some(ZapError::ZeroTotalSupply)
    } else if unzap_refusal(
        output_amount,
        output_reserve(output_token, state),
        state.total_supply,
        state.fee_per_1000,
    ) is Some {
        unzap_refusal(
            output_amount,
            output_reserve(output_token, state),
            state.total_supply,
            state.fee_per_1000,
        )
    } else if exact_out_liquidity(output_token, output_amount, state) > max_lp {
        Some(
            ZapError::LpExceedsMax {
                required: exact_out_liquidity(output_token, output_amount, state),
                max: max_lp,
            },
        )
    } else {
        None
    }
}

/// How an unzap for an output target begins once the snapshot is there: as the
/// unzap of the liquidity that the target takes, with the target as its minimum.
pub open spec fn begins_exact_out(
    step: Step,
    pool: AlkaneId,
    output_token: AlkaneId,
    output_amount: u128,
    max_lp: u128,
    state: PoolState,
    incoming: Seq<AlkaneTransfer>,
) -> bool {
    match exact_out_refusal(output_token, output_amount, max_lp, state) {
        Some(error) => step == (Step::Revert { error }),
        None => begins_zap_out(
            step,
            pool,
            output_token,
            exact_out_liquidity(output_token, output_amount, state),
            output_amount,
            state,
            incoming,
        ),
    }
}

impl Zap {
    /// Checks that the pool has the output token.
    pub fn check_output(&self, output_token: AlkaneId, state: &PoolState) -> (r: Result<
        (),
        ZapError,
    >)
        ensures
            match r {
                Ok(_) => output_refusal(output_token, *state) is None,
                Err(e) => output_refusal(output_token, *state) == Some(e),
            },
    {
        if output_token != state.token_a && output_token != state.token_b {
            return Err(
                ZapError::OutputNotInPool {
                    output: output_token,
                    token_a: state.token_a,
                    token_b: state.token_b,
                },
            );
        }
        Ok(())
    }

    /// Begins an unzap: takes the liquidity and asks for the withdrawal.
    pub fn execute_zap_out_with_state(
        &self,
        pool: AlkaneId,
        output_token: AlkaneId,
        liquidity: u128,
        min_out: u128,
        state: &PoolState,
        incoming: &Vec<AlkaneTransfer>,
    ) -> (step: Step)
        ensures
            begins_zap_out(step, pool, output_token, liquidity, min_out, *state, incoming@),
    {
        let (lp_amount, leftovers) = match self.extract_input(incoming, pool, liquidity) {
            Ok(pair) => pair,
            Err(error) => {
                return Step::Revert { error };
            },
        };
        Step::Ask {
            action: call_withdraw_and_burn(pool, lp_amount),
            pending: Pending::Burn {
                burn: BurnPending { pool, output_token, min_out, state: *state, leftovers },
            },
        }
    }

    /// Goes on after the withdrawal: asks for the swap of the unwanted side.
    pub fn swap_withdrawn(&self, burn: BurnPending, response: CallResponse) -> (step: Step)
        ensures
            continues_zap_out(step, burn, response.alkanes@),
    {
        let (amt_a, not_a) = split_token(&response.alkanes, burn.state.token_a);
        let (amt_b, rest) = split_token(&not_a, burn.state.token_b);
        if amt_a == 0 || amt_b == 0 {
            return Step::Revert { error: ZapError::BurnReturnedNothing };
        }
        let mut leftovers = burn.leftovers;
        append_transfers(&mut leftovers, &rest);
        let new_r_a: u128 = burn.state.reserve_a.saturating_sub(amt_a);
        let new_r_b: u128 = burn.state.reserve_b.saturating_sub(amt_b);
        let output_is_a = burn.output_token == burn.state.token_a;
        let (input_token, input_amt, own_side, r_in, r_out) = if output_is_a {
            (burn.state.token_b, amt_b, amt_a, new_r_b, new_r_a)
        } else {
            (burn.state.token_a, amt_a, amt_b, new_r_a, new_r_b)
        };
        if r_in > 0 && r_out > 0 {
            let expected_out: u128 = match calculate_swap_out(
                input_amt,
                r_in,
                r_out,
                burn.state.fee_per_1000,
            ) {
                Ok(out) => out,
                Err(error) => {
                    return Step::Revert { error };
                },
            };
            let action = if output_is_a {
                call_swap(burn.pool, input_token, input_amt, expected_out, 0)
            } else {
                call_swap(burn.pool, input_token, input_amt, 0, expected_out)
            };
            Step::Ask {
                action,
                pending: Pending::Unzap {
                    unzap: UnzapPending {
                        output_token: burn.output_token,
                        min_out: burn.min_out,
                        own_side,
                        leftovers,
                    },
                },
            }
        } else {
            let ghost kept = leftovers@;
            leftovers.push(AlkaneTransfer { id: input_token, value: input_amt });
            proof {
                assert(leftovers@ =~= kept + seq![
                    AlkaneTransfer { id: input_token, value: input_amt },
                ]);
            }
            self.settle_zap_out(burn.output_token, own_side, burn.min_out, leftovers)
        }
    }

    /// Ends an unzap after its swap.
    pub fn finish_zap_out(&self, unzap: UnzapPending, response: CallResponse) -> (step: Step)
        ensures
            finishes_zap_out(step, unzap, response.alkanes@),
    {
        let (got, rest) = split_token(&response.alkanes, unzap.output_token);
        let mut leftovers = unzap.leftovers;
        append_transfers(&mut leftovers, &rest);
        let total_out: u128 = unzap.own_side.saturating_add(got);
        self.settle_zap_out(unzap.output_token, total_out, unzap.min_out, leftovers)
    }

    /// Hands out the output and the change, unless the output is below the
    /// minimum.
    pub fn settle_zap_out(
        &self,
        output_token: AlkaneId,
        total_out: u128,
        min_out: u128,
        leftovers: Vec<AlkaneTransfer>,
    ) -> (step: Step)
        ensures
            settles_zap_out(step, output_token, total_out, min_out, leftovers@),
    {
        if total_out < min_out {
            return Step::Revert {
                error: ZapError::InsufficientOutput { got: total_out, want: min_out },
            };
        }
        let mut transfers = vec![AlkaneTransfer { id: output_token, value: total_out }];
        append_transfers(&mut transfers, &leftovers);
        let mut data: Vec<u8> = Vec::new();
        push_u128(&mut data, total_out);
        proof {
            assert(transfers@ =~= seq![AlkaneTransfer { id: output_token, value: total_out }]
                + leftovers@);
            assert(data@ =~= u128_bytes(total_out));
        }
        Step::Done { response: make_response(transfers, data) }
    }

    /// The liquidity that an output target takes, within the caller's limit.
    pub fn derive_exact_out_liquidity(
        &self,
        output_token: AlkaneId,
        output_amount: u128,
        max_lp: u128,
        state: &PoolState,
    ) -> (r: Result<u128, ZapError>)
        ensures
            match r {
                Ok(liquidity) => {
                    &&& exact_out_refusal(output_token, output_amount, max_lp, *state) is None
                    &&& liquidity == exact_out_liquidity(output_token, output_amount, *state)
                },
                Err(e) => exact_out_refusal(output_token, output_amount, max_lp, *state) == Some(e),
            },
    {
        match self.check_output(output_token, state) {
            Ok(_) => {},
            Err(error) => {
                return Err(error);
            },
        }
        if state.total_supply == 0 {
            return Err(ZapError::ZeroTotalSupply);
        }
        let reserve: u128 = if output_token == state.token_a {
            state.reserve_a
        } else {
            state.reserve_b
        };
        let required_lp: u128 = match calculate_lp_for_exact_out(
            output_amount,
            reserve,
            state.total_supply,
            state.fee_per_1000,
        ) {
            Ok(lp) => lp,
            Err(error) => {
                return Err(error);
            },
        };
        if required_lp > max_lp {
            return Err(ZapError::LpExceedsMax { required: required_lp, max: max_lp });
        }
        Ok(required_lp)
    }
}

} // verus!
