use zippo::bytes::{push_u128, read_u128};
use zippo::pool::{parse_pool_details, parse_total_fee};
use zippo::transfers::{aggregate_transfers, make_response, split_token};
use zippo::types::{AlkaneId, AlkaneTransfer};
use zippo::zap::Zap;
use zippo::zap_in::ZapInResult;

fn id(block: u128, tx: u128) -> AlkaneId {
    AlkaneId { block, tx }
}

fn of(id: AlkaneId, value: u128) -> AlkaneTransfer {
    AlkaneTransfer { id, value }
}

#[test]
fn aggregate_sorts_and_sums() {
    let list = vec![
        of(id(2, 9), 5),
        of(id(2, 1), 0),
        of(id(4, 0), 1),
        of(id(2, 9), 6),
        of(id(1, 50), 2),
    ];
    assert_eq!(
        aggregate_transfers(list),
        vec![of(id(1, 50), 2), of(id(2, 9), 11), of(id(4, 0), 1)]
    );
    assert_eq!(aggregate_transfers(Vec::new()), Vec::new());
}

#[test]
fn aggregate_is_cut_off_at_the_largest_value() {
    let list = vec![of(id(2, 9), u128::MAX), of(id(2, 9), 6)];
    assert_eq!(aggregate_transfers(list), vec![of(id(2, 9), u128::MAX)]);
}

#[test]
fn aggregate_does_not_depend_on_the_order() {
    let one = vec![of(id(2, 9), 5), of(id(1, 1), 3), of(id(2, 9), 6)];
    let two = vec![of(id(1, 1), 3), of(id(2, 9), 6), of(id(2, 9), 5)];
    assert_eq!(aggregate_transfers(one), aggregate_transfers(two));
}

#[test]
fn split_token_keeps_the_others_in_order() {
    let list = vec![of(id(2, 9), 5), of(id(2, 1), 7), of(id(2, 9), 6), of(id(1, 1), 8)];
    assert_eq!(
        split_token(&list, id(2, 9)),
        (11, vec![of(id(2, 1), 7), of(id(1, 1), 8)])
    );
}

#[test]
fn responses_carry_data() {
    let response = make_response(vec![of(id(2, 9), 5), of(id(2, 9), 5)], vec![1, 2, 3]);
    assert_eq!(response.alkanes, vec![of(id(2, 9), 10)]);
    assert_eq!(response.data, vec![1, 2, 3]);
}

#[test]
fn integers_are_little_endian() {
    for x in [0u128, 1, 255, 256, 1 << 100, u128::MAX] {
        let mut out = vec![7u8];
        push_u128(&mut out, x);
        assert_eq!(out[1..], x.to_le_bytes());
        assert_eq!(read_u128(&out, 1), x);
    }
}

#[test]
fn pool_descriptions_are_parsed() {
    let mut data = Vec::new();
    for x in [2u128, 3, 4, 5, 600, 700, 800] {
        push_u128(&mut data, x);
    }
    data.push(42);
    let details = parse_pool_details(&data).unwrap();
    assert_eq!((details.token_a, details.token_b), (id(2, 3), id(4, 5)));
    assert_eq!((details.reserve_a, details.reserve_b, details.total_supply), (600, 700, 800));
    assert_eq!(parse_total_fee(&data), Ok(2));
}

#[test]
fn extracting_the_input_leaves_change() {
    let zap = Zap::default();
    let incoming = vec![of(id(2, 9), 5), of(id(2, 1), 7), of(id(2, 9), 6)];
    assert_eq!(
        zap.extract_input(&incoming, id(2, 9), 8),
        Ok((8, vec![of(id(2, 1), 7), of(id(2, 9), 3)]))
    );
    assert_eq!(
        zap.extract_input(&incoming, id(2, 9), 11),
        Ok((11, vec![of(id(2, 1), 7)]))
    );
}

#[test]
fn packaged_zaps_carry_residuals() {
    let result = ZapInResult {
        lp_received: 50,
        pool: id(4, 1),
        input_token: id(2, 1),
        output_token: id(2, 2),
        residual_input: 3,
        residual_output: 0,
        leftovers: vec![of(id(2, 1), 4)],
    };
    let response = Zap::package_zap_response(result, vec![of(id(4, 1), 50)]);
    assert_eq!(response.alkanes, vec![of(id(2, 1), 7), of(id(4, 1), 50)]);
    assert_eq!(response.data, 50u128.to_le_bytes().to_vec());
}
