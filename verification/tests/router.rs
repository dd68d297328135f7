use zippo::amm_logic::{calculate_swap_out, mul_div};
use zippo::protocol::{Action, Pending, Reply, Step, ZapMessage};
use zippo::types::{AlkaneId, AlkaneTransfer, CallResponse, ZapError};
use zippo::zap::{validate_lock_duration, Zap};

const POOL: AlkaneId = AlkaneId { block: 4, tx: 100 };
const A: AlkaneId = AlkaneId { block: 2, tx: 1 };
const B: AlkaneId = AlkaneId { block: 2, tx: 7 };
const OTHER: AlkaneId = AlkaneId { block: 1, tx: 9 };
const FARM: AlkaneId = AlkaneId { block: 4, tx: 200 };

/// A constant-product pool.
struct Pool {
    reserve_a: u128,
    reserve_b: u128,
    supply: u128,
    fee: u128,
}

fn pool() -> Pool {
    Pool { reserve_a: 1_000_000, reserve_b: 2_000_000, supply: 1_000_000, fee: 10 }
}

fn of(id: AlkaneId, value: u128) -> AlkaneTransfer {
    AlkaneTransfer { id, value }
}

fn tokens(alkanes: Vec<AlkaneTransfer>) -> Reply {
    Reply::Returned { response: CallResponse { alkanes, data: Vec::new() } }
}

fn bytes(values: &[u128]) -> Vec<u8> {
    let mut data = Vec::new();
    for v in values {
        data.extend_from_slice(&v.to_le_bytes());
    }
    data
}

fn data(data: Vec<u8>) -> Reply {
    Reply::Returned { response: CallResponse { alkanes: Vec::new(), data } }
}

impl Pool {
    fn details(&self) -> Vec<u8> {
        let mut out = bytes(&[
            A.block, A.tx, B.block, B.tx, self.reserve_a, self.reserve_b, self.supply,
        ]);
        out.extend_from_slice(b"A / B");
        out
    }

    fn perform(&mut self, action: &Action) -> Reply {
        match action {
            Action::StaticCall { cellpack } => {
                assert_eq!(cellpack.target, POOL);
                if cellpack.inputs == vec![999] {
                    data(self.details())
                } else {
                    assert_eq!(cellpack.inputs, vec![20]);
                    data(bytes(&[self.fee]))
                }
            }
            Action::Call { cellpack, parcel } => {
                assert_eq!(cellpack.target, POOL);
                match cellpack.inputs[0] {
                    1 => {
                        assert_eq!((parcel.len(), parcel[0].id, parcel[1].id), (2, A, B));
                        let (x, y) = (parcel[0].value, parcel[1].value);
                        let lp = mul_div(x, self.supply, self.reserve_a)
                            .min(mul_div(y, self.supply, self.reserve_b));
                        self.reserve_a += x;
                        self.reserve_b += y;
                        self.supply += lp;
                        tokens(vec![of(POOL, lp)])
                    }
                    2 => {
                        assert_eq!((parcel.len(), parcel[0].id), (1, POOL));
                        let lp = parcel[0].value;
                        let x = mul_div(lp, self.reserve_a, self.supply);
                        let y = mul_div(lp, self.reserve_b, self.supply);
                        self.reserve_a -= x;
                        self.reserve_b -= y;
                        self.supply -= lp;
                        tokens(vec![of(A, x), of(B, y)])
                    }
                    _ => {
                        assert_eq!(cellpack.inputs[0], 3);
                        assert_eq!(cellpack.inputs[3..], [0, 0, 0]);
                        let (out_a, out_b) = (cellpack.inputs[1], cellpack.inputs[2]);
                        assert_eq!(parcel.len(), 1);
                        let paid = parcel[0].value;
                        if parcel[0].id == A {
                            assert_eq!(out_a, 0);
                            assert_eq!(
                                Ok(out_b),
                                calculate_swap_out(paid, self.reserve_a, self.reserve_b, self.fee)
                            );
                            self.reserve_a += paid;
                            self.reserve_b -= out_b;
                            tokens(vec![of(B, out_b)])
                        } else {
                            assert_eq!((parcel[0].id, out_b), (B, 0));
                            assert_eq!(
                                Ok(out_a),
                                calculate_swap_out(paid, self.reserve_b, self.reserve_a, self.fee)
                            );
                            self.reserve_b += paid;
                            self.reserve_a -= out_a;
                            tokens(vec![of(A, out_a)])
                        }
                    }
                }
            }
        }
    }
}

/// Runs an operation against a pool; returns its last step and the first
/// argument of each call that it made.
fn run(pool: &mut Pool, message: ZapMessage, incoming: Vec<AlkaneTransfer>) -> (Step, Vec<u128>) {
    let zap = Zap::default();
    let mut calls = Vec::new();
    let mut step = zap.start(message, 500, incoming);
    loop {
        match step {
            Step::Ask { action, pending } => {
                match &action {
                    Action::StaticCall { cellpack } => calls.push(cellpack.inputs[0]),
                    Action::Call { cellpack, .. } => calls.push(cellpack.inputs[0]),
                }
                let reply = pool.perform(&action);
                step = zap.resume(pending, reply);
            }
            end => return (end, calls),
        }
    }
}

fn done(step: Step) -> CallResponse {
    match step {
        Step::Done { response } => response,
        other => panic!("not done: {:?}", other),
    }
}

fn revert(error: ZapError) -> Step {
    Step::Revert { error }
}

fn ask(step: Step) -> (Action, Pending) {
    match step {
        Step::Ask { action, pending } => (action, pending),
        other => panic!("no call: {:?}", other),
    }
}

fn zap_in(amount_in: u128, min_lp_tokens: u128) -> ZapMessage {
    ZapMessage::ZapIn {
        pool: POOL,
        input_token: A,
        output_token: B,
        amount_in,
        min_lp_tokens,
        deadline: 0,
    }
}

fn exact_lp(lp_out: u128, amount_in_max: u128) -> ZapMessage {
    ZapMessage::ZapInForExactLp {
        pool: POOL,
        input_token: A,
        output_token: B,
        lp_out,
        amount_in_max,
        deadline: 0,
    }
}

fn zap_out(output_token: AlkaneId, liquidity: u128, min_out: u128) -> ZapMessage {
    ZapMessage::ZapOut { pool: POOL, output_token, liquidity, min_out, deadline: 0 }
}

fn exact_out(output_token: AlkaneId, output_amount: u128, max_lp: u128) -> ZapMessage {
    ZapMessage::ZapOutForExactOut { pool: POOL, output_token, output_amount, max_lp, deadline: 0 }
}

fn stake(liquidity: u128, lock_duration: u128) -> ZapMessage {
    ZapMessage::Stake { pool: POOL, staking: FARM, liquidity, lock_duration, deadline: 0 }
}

fn bond(liquidity: u128) -> ZapMessage {
    ZapMessage::Bond { pool: POOL, bonding: FARM, liquidity, min_fire_out: 11, deadline: 0 }
}

#[test]
fn zap_in_returns_liquidity_and_change() {
    let mut p = pool();
    let (end, calls) = run(&mut p, zap_in(10_000, 4_961), vec![of(OTHER, 3), of(A, 10_500)]);
    let response = done(end);
    // Two units of input do not fit the pool's ratio; the excess is change.
    assert_eq!(response.alkanes, vec![of(OTHER, 3), of(A, 502), of(POOL, 4_961)]);
    assert_eq!(response.data, 4_961u128.to_le_bytes().to_vec());
    assert_eq!(calls, vec![999, 20, 3, 1]);
    assert_eq!((p.reserve_a, p.reserve_b), (1_009_998, 2_000_000));
}

#[test]
fn zap_in_from_the_second_token() {
    let mut p = Pool { reserve_a: 2_000_000, reserve_b: 1_000_000, supply: 1_000_000, fee: 10 };
    let message = ZapMessage::ZapIn {
        pool: POOL,
        input_token: B,
        output_token: A,
        amount_in: 10_000,
        min_lp_tokens: 0,
        deadline: 0,
    };
    let response = done(run(&mut p, message, vec![of(B, 10_000)]).0);
    assert_eq!(response.alkanes, vec![of(B, 2), of(POOL, 4_961)]);
}

#[test]
fn zap_in_refuses_less_than_the_minimum() {
    let (end, _) = run(&mut pool(), zap_in(10_000, 4_962), vec![of(A, 10_000)]);
    assert_eq!(end, revert(ZapError::InsufficientLp { got: 4_961, want: 4_962 }));
}

#[test]
fn exact_lp_mints_the_target() {
    let mut p = pool();
    let (end, calls) = run(&mut p, exact_lp(5_000, 20_000), vec![of(A, 20_000)]);
    let response = done(end);
    assert_eq!(response.alkanes, vec![of(A, 20_000 - 10_077), of(POOL, 5_000)]);
    assert_eq!(response.data, 5_000u128.to_le_bytes().to_vec());
    assert_eq!(calls, vec![999, 20, 3, 1]);
}

#[test]
fn exact_lp_makes_up_for_the_roundings() {
    let mut p = Pool { reserve_a: 1_000_000, reserve_b: 2_000_000, supply: 1_414_213, fee: 10 };
    let response = done(run(&mut p, exact_lp(1_000, 2_000), vec![of(A, 2_000)]).0);
    let lp = response.alkanes.iter().find(|t| t.id == POOL).unwrap().value;
    assert!(lp >= 1_000);
}

#[test]
fn exact_lp_refusals() {
    let mut p = pool();
    let bag = || vec![of(A, 20_000)];
    assert_eq!(run(&mut p, exact_lp(0, 1), bag()).0, revert(ZapError::ZeroLpOut));
    assert_eq!(run(&mut p, exact_lp(1, 0), bag()).0, revert(ZapError::ZeroAmountInMax));
    assert_eq!(
        run(&mut p, exact_lp(5_000, 10_076), bag()).0,
        revert(ZapError::AmountInExceedsMax { required: 10_077, max: 10_076 })
    );
    let mut empty = Pool { reserve_a: 1, reserve_b: 1, supply: 0, fee: 10 };
    assert_eq!(run(&mut empty, exact_lp(1, 1), bag()).0, revert(ZapError::ZeroTotalSupply));
}

#[test]
fn zap_out_returns_one_token() {
    let mut p = pool();
    let (end, calls) = run(
        &mut p,
        zap_out(A, 50_000, 97_048),
        vec![of(POOL, 50_001), of(B, 5)],
    );
    let response = done(end);
    assert_eq!(response.alkanes, vec![of(A, 97_048), of(B, 5), of(POOL, 1)]);
    assert_eq!(response.data, 97_048u128.to_le_bytes().to_vec());
    assert_eq!(calls, vec![999, 20, 2, 3]);
}

#[test]
fn zap_out_into_the_second_token() {
    let mut p = Pool { reserve_a: 2_000_000, reserve_b: 1_000_000, supply: 1_000_000, fee: 10 };
    let response = done(run(&mut p, zap_out(B, 50_000, 0), vec![of(POOL, 50_000)]).0);
    assert_eq!(response.alkanes, vec![of(B, 97_048)]);
}

#[test]
fn zap_out_of_everything_returns_both_tokens() {
    let mut p = pool();
    let (end, calls) = run(&mut p, zap_out(A, 1_000_000, 1_000_000), vec![of(POOL, 1_000_000)]);
    let response = done(end);
    assert_eq!(response.alkanes, vec![of(A, 1_000_000), of(B, 2_000_000)]);
    assert_eq!(response.data, 1_000_000u128.to_le_bytes().to_vec());
    assert_eq!(calls, vec![999, 20, 2]);
}

#[test]
fn zap_out_refusals() {
    let mut p = pool();
    let bag = || vec![of(POOL, 60_000)];
    assert_eq!(run(&mut p, zap_out(A, 0, 0), bag()).0, revert(ZapError::ZeroLiquidity));
    assert_eq!(
        run(&mut p, zap_out(OTHER, 1, 0), bag()).0,
        revert(ZapError::OutputNotInPool { output: OTHER, token_a: A, token_b: B })
    );
    assert_eq!(
        run(&mut p, zap_out(A, 50_000, 97_049), bag()).0,
        revert(ZapError::InsufficientOutput { got: 97_048, want: 97_049 })
    );
    let mut thin = Pool { reserve_a: 1, reserve_b: 10, supply: 10, fee: 10 };
    assert_eq!(
        run(&mut thin, zap_out(A, 1, 0), bag()).0,
        revert(ZapError::BurnReturnedNothing)
    );
}

#[test]
fn exact_out_pays_the_target() {
    let mut p = pool();
    let (end, calls) = run(&mut p, exact_out(A, 90_000, 50_000), vec![of(POOL, 50_000)]);
    let response = done(end);
    assert_eq!(response.alkanes, vec![of(A, 90_006), of(POOL, 50_000 - 46_285)]);
    assert_eq!(calls, vec![999, 20, 2, 3]);
}

#[test]
fn exact_out_refused_by_the_router() {
    let mut p = pool();
    let bag = || vec![of(POOL, 60_000)];
    assert_eq!(run(&mut p, exact_out(A, 0, 1), bag()).0, revert(ZapError::ZeroOutputAmount));
    assert_eq!(run(&mut p, exact_out(A, 1, 0), bag()).0, revert(ZapError::ZeroMaxLp));
    assert_eq!(
        run(&mut p, exact_out(OTHER, 1, 1), bag()).0,
        revert(ZapError::OutputNotInPool { output: OTHER, token_a: A, token_b: B })
    );
    assert_eq!(
        run(&mut p, exact_out(A, 90_000, 46_284), bag()).0,
        revert(ZapError::LpExceedsMax { required: 46_285, max: 46_284 })
    );
    assert_eq!(
        run(&mut p, exact_out(A, 1_000_000, 1), bag()).0,
        revert(ZapError::OutputExceedsReserve { output_amount: 1_000_000, reserve: 1_000_000 })
    );
    let mut empty = Pool { reserve_a: 5, reserve_b: 5, supply: 0, fee: 10 };
    assert_eq!(run(&mut empty, exact_out(A, 1, 1), bag()).0, revert(ZapError::ZeroTotalSupply));
}

#[test]
fn tokens_are_checked_before_any_of_them_move() {
    let mut p = pool();
    let same = ZapMessage::ZapIn {
        pool: POOL,
        input_token: A,
        output_token: A,
        amount_in: 10,
        min_lp_tokens: 0,
        deadline: 0,
    };
    assert_eq!(run(&mut p, same, vec![of(A, 10)]), (revert(ZapError::SameTokens), vec![]));
    let foreign = ZapMessage::ZapIn {
        pool: POOL,
        input_token: A,
        output_token: OTHER,
        amount_in: 10_000,
        min_lp_tokens: 0,
        deadline: 0,
    };
    let (end, calls) = run(&mut p, foreign, vec![of(A, 10_000)]);
    assert_eq!(
        end,
        revert(ZapError::PairMismatch { input: A, output: OTHER, token_a: A, token_b: B })
    );
    assert_eq!(calls, vec![999, 20]);
    let foreign_target = ZapMessage::ZapInForExactLp {
        pool: POOL,
        input_token: OTHER,
        output_token: B,
        lp_out: 1,
        amount_in_max: 10,
        deadline: 0,
    };
    assert_eq!(
        run(&mut p, foreign_target, vec![of(A, 10_000)]).0,
        revert(ZapError::PairMismatch { input: OTHER, output: B, token_a: A, token_b: B })
    );
}

#[test]
fn input_is_checked() {
    let mut p = pool();
    assert_eq!(
        run(&mut p, zap_in(0, 0), vec![of(A, 10)]).0,
        revert(ZapError::ZeroAmountIn)
    );
    assert_eq!(
        run(&mut p, zap_in(10, 0), vec![of(B, 10)]).0,
        revert(ZapError::InputMissing { token: A })
    );
    assert_eq!(
        run(&mut p, zap_in(10, 0), vec![of(A, 4), of(A, 5)]).0,
        revert(ZapError::InputExceedsReceived { required: 10, received: 9, token: A })
    );
    assert_eq!(
        run(&mut p, zap_in(1, 0), vec![of(A, 1)]).0,
        revert(ZapError::AmountTooSmallToSplit)
    );
    let mut dry = Pool { reserve_a: 0, reserve_b: 10, supply: 10, fee: 10 };
    assert_eq!(run(&mut dry, zap_in(10, 0), vec![of(A, 10)]).0, revert(ZapError::PoolNotSeeded));
}

#[test]
fn deadlines() {
    let zap = Zap::default();
    assert_eq!(zap.check_deadline(500, 0), Ok(()));
    assert_eq!(zap.check_deadline(500, 500), Ok(()));
    assert_eq!(
        zap.check_deadline(501, 500),
        Err(ZapError::Expired { height: 501, deadline: 500 })
    );
    let expired = ZapMessage::Stake {
        pool: POOL,
        staking: FARM,
        liquidity: 0,
        lock_duration: 7,
        deadline: 9,
    };
    assert_eq!(
        zap.start(expired, 10, Vec::new()),
        revert(ZapError::Expired { height: 10, deadline: 9 })
    );
}

#[test]
fn lock_durations() {
    for accepted in [0u128, 1_050, 4_375, 13_125, 26_250, 52_500] {
        assert_eq!(validate_lock_duration(accepted), Ok(()));
    }
    for refused in [1u128, 1_049, 4_374, 52_501, u128::MAX] {
        assert_eq!(
            validate_lock_duration(refused),
            Err(ZapError::InvalidLockDuration { lock_duration: refused })
        );
    }
}

#[test]
fn staking_forwards_exactly_the_liquidity() {
    let zap = Zap::default();
    let incoming = vec![of(A, 4), of(POOL, 70), of(POOL, 31)];
    let (action, pending) = ask(zap.start(stake(100, 1_050), 500, incoming));
    match action {
        Action::Call { cellpack, parcel } => {
            assert_eq!(cellpack.target, FARM);
            assert_eq!(cellpack.inputs, vec![1, 1_050, 100]);
            assert_eq!(parcel, vec![of(POOL, 100)]);
        }
        other => panic!("not a call: {:?}", other),
    }
    let reply = Reply::Returned {
        response: CallResponse { alkanes: vec![of(FARM, 1), of(A, 2)], data: vec![9, 8] },
    };
    let response = done(zap.resume(pending, reply));
    assert_eq!(response.alkanes, vec![of(A, 6), of(POOL, 1), of(FARM, 1)]);
    let mut expected = 100u128.to_le_bytes().to_vec();
    expected.extend_from_slice(&[9, 8]);
    assert_eq!(response.data, expected);
}

#[test]
fn bonding_forwards_exactly_the_liquidity() {
    let zap = Zap::default();
    let (action, pending) = ask(zap.start(bond(100), 500, vec![of(POOL, 100)]));
    match action {
        Action::Call { cellpack, parcel } => {
            assert_eq!(cellpack.target, FARM);
            assert_eq!(cellpack.inputs, vec![1, 100, 11]);
            assert_eq!(parcel, vec![of(POOL, 100)]);
        }
        other => panic!("not a call: {:?}", other),
    }
    let response = done(zap.resume(pending, tokens(vec![of(FARM, 5)])));
    assert_eq!(response.alkanes, vec![of(FARM, 5)]);
    assert_eq!(response.data, 100u128.to_le_bytes().to_vec());
}

#[test]
fn forwarding_refusals() {
    let zap = Zap::default();
    let bag = || vec![of(POOL, 10)];
    assert_eq!(zap.start(stake(0, 0), 1, bag()), revert(ZapError::ZeroLiquidity));
    assert_eq!(zap.start(bond(0), 1, bag()), revert(ZapError::ZeroLiquidity));
    assert_eq!(
        zap.start(stake(0, 52_501), 1, bag()),
        revert(ZapError::InvalidLockDuration { lock_duration: 52_501 })
    );
    assert_eq!(
        zap.start(stake(5, 0), 1, Vec::new()),
        revert(ZapError::InputMissing { token: POOL })
    );
    assert_eq!(
        zap.start(bond(11), 1, bag()),
        revert(ZapError::InputExceedsReceived { required: 11, received: 10, token: POOL })
    );
}

#[test]
fn forward_hands_everything_back_unchanged() {
    let bag = vec![of(B, 1), of(A, 2), of(B, 3), of(A, 0)];
    let response = done(Zap::default().start(ZapMessage::Forward, 1, bag));
    assert_eq!(response.alkanes, vec![of(B, 1), of(A, 2), of(B, 3), of(A, 0)]);
    assert!(response.data.is_empty());
}

#[test]
fn views() {
    let zap = Zap::default();
    let name = done(zap.start(ZapMessage::GetName, 1, Vec::new()));
    assert_eq!(name.data, b"Zippo".to_vec());
    assert!(name.alkanes.is_empty());
    let origin = done(zap.start(ZapMessage::MadeIn, 1, Vec::new()));
    assert_eq!(origin.data, b"Winnipeg".to_vec());
    assert!(origin.alkanes.is_empty());
}

#[test]
fn failed_calls_revert() {
    let zap = Zap::default();
    let mut p = pool();
    let (_, details) = ask(zap.start(zap_in(10_000, 0), 1, vec![of(A, 10_000)]));
    assert_eq!(zap.resume(details, Reply::Failed), revert(ZapError::CallFailed));
    let (_, details) = ask(zap.start(zap_in(10_000, 0), 1, vec![of(A, 10_000)]));
    let (_, fee) = ask(zap.resume(details, data(p.details())));
    assert_eq!(zap.resume(fee, Reply::Failed), revert(ZapError::CallFailed));
    let (_, details) = ask(zap.start(zap_in(10_000, 0), 1, vec![of(A, 10_000)]));
    let (_, fee) = ask(zap.resume(details, data(p.details())));
    let (action, swap) = ask(zap.resume(fee, data(bytes(&[10]))));
    let _ = p.perform(&action);
    assert_eq!(zap.resume(swap, Reply::Failed), revert(ZapError::CallFailed));
}

#[test]
fn short_answers_of_the_pool_revert() {
    let zap = Zap::default();
    let (_, details) = ask(zap.start(zap_in(10_000, 0), 1, vec![of(A, 10_000)]));
    assert_eq!(
        zap.resume(details, data(vec![0; 111])),
        revert(ZapError::PoolDetailsTooShort { length: 111 })
    );
    let (_, details) = ask(zap.start(zap_in(10_000, 0), 1, vec![of(A, 10_000)]));
    let (_, fee) = ask(zap.resume(details, data(pool().details())));
    assert_eq!(
        zap.resume(fee, data(vec![10; 15])),
        revert(ZapError::FeeResponseTooShort { length: 15 })
    );
}

/// A zap of 10_000 whose swap is under way.
fn at_swap(p: &Pool, incoming: Vec<AlkaneTransfer>) -> Pending {
    let zap = Zap::default();
    let (_, details) = ask(zap.start(zap_in(10_000, 0), 1, incoming));
    let (_, fee) = ask(zap.resume(details, data(p.details())));
    ask(zap.resume(fee, data(bytes(&[p.fee])))).1
}

#[test]
fn swap_that_pays_nothing_reverts() {
    let swap = at_swap(&pool(), vec![of(A, 10_000)]);
    assert_eq!(
        Zap::default().resume(swap, tokens(vec![of(A, 5)])),
        revert(ZapError::SwapReturnedNothing)
    );
}

#[test]
fn one_sided_deposit_reverts() {
    let p = Pool { reserve_a: 10_000_000, reserve_b: 10, supply: 1_000, fee: 10 };
    let swap = at_swap(&p, vec![of(A, 10_000)]);
    assert_eq!(
        Zap::default().resume(swap, tokens(vec![of(B, 1)])),
        revert(ZapError::DepositIsZero)
    );
}

#[test]
fn unexpected_tokens_are_swept_to_the_caller() {
    let zap = Zap::default();
    let p = pool();
    let swap = at_swap(&p, vec![of(OTHER, 1), of(A, 10_000)]);
    let (action, deposit) = ask(zap.resume(
        swap,
        tokens(vec![of(B, 9_000), of(OTHER, 10), of(B, 874), of(A, 7)]),
    ));
    match action {
        Action::Call { cellpack, parcel } => {
            assert_eq!(cellpack.inputs, vec![1]);
            assert_eq!(parcel, vec![of(A, 4_986), of(B, 9_874)]);
        }
        other => panic!("not a call: {:?}", other),
    }
    let response = done(zap.resume(
        deposit,
        tokens(vec![of(POOL, 4_000), of(B, 1), of(POOL, 961), of(FARM, 2)]),
    ));
    assert_eq!(
        response.alkanes,
        vec![of(OTHER, 11), of(A, 2 + 7), of(B, 1), of(POOL, 4_961), of(FARM, 2)]
    );
}

#[test]
fn every_token_is_accounted_for() {
    let mut p = pool();
    let incoming = vec![of(A, 12_345), of(B, 17), of(OTHER, 5), of(A, 5)];
    let response = done(run(&mut p, zap_in(10_000, 0), incoming).0);
    let held = |id: AlkaneId| -> u128 {
        response.alkanes.iter().filter(|t| t.id == id).map(|t| t.value).sum()
    };
    assert_eq!(held(A) + p.reserve_a, 12_350 + 1_000_000);
    assert_eq!(held(B) + p.reserve_b, 17 + 2_000_000);
    assert_eq!(held(OTHER), 5);
    assert_eq!(held(POOL), p.supply - 1_000_000);
}

#[test]
fn spending_stays_within_the_limit() {
    let mut p = pool();
    let response = done(run(&mut p, exact_lp(5_000, 10_077), vec![of(A, 50_000)]).0);
    let back = response.alkanes.iter().find(|t| t.id == A).unwrap().value;
    assert!(50_000 - back <= 10_077);
}
