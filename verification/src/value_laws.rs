//! What encodings and lists of token amounts mean, said without the functions
//! that compute them.

use crate::bytes::{law_u128_bytes_round_trip, le_value, u128_bytes};
use crate::pool::field_at;
use crate::transfers::{
    change_of, extract_refusal, is_aggregate, law_aggregate_keeps_totals, lemma_total_concat,
    lemma_total_push, lemma_total_unless_zero, lemma_total_without, total_of, unless_zero, without,
};
use crate::types::{capped, AlkaneId, AlkaneTransfer, ZapError};
use vstd::prelude::*;

verus! {

/// Sixteen bytes from `at` on, least significant first, as a number.
pub open spec fn word(data: Seq<u8>, at: int) -> int {
    data[at] + 0x100 * data[at + 1] + 0x1_0000 * data[at + 2] + 0x100_0000 * data[at + 3]
        + 0x1_0000_0000 * data[at + 4] + 0x100_0000_0000 * data[at + 5] + 0x1_0000_0000_0000
        * data[at + 6] + 0x100_0000_0000_0000 * data[at + 7] + 0x1_0000_0000_0000_0000 * (data[at
        + 8] + 0x100 * data[at + 9] + 0x1_0000 * data[at + 10] + 0x100_0000 * data[at + 11]
        + 0x1_0000_0000 * data[at + 12] + 0x100_0000_0000 * data[at + 13] + 0x1_0000_0000_0000
        * data[at + 14] + 0x100_0000_0000_0000 * data[at + 15])
}

/// The value of a byte sequence, one byte unfolded.
proof fn lemma_le_step(data: Seq<u8>, from: int, to: int)
    requires
        0 <= from < to <= data.len(),
    ensures
        le_value(data.subrange(from, to)) == data[from] + 256 * le_value(
            data.subrange(from + 1, to),
        ),
{
    assert(data.subrange(from, to).drop_first() =~= data.subrange(from + 1, to));
}

/// A field is read as the little-endian number that its sixteen bytes make up.
pub proof fn law_field_is_word(data: Seq<u8>, at: int)
    requires
        0 <= at,
        at + 16 <= data.len(),
    ensures
        field_at(data, at) == word(data, at),
        0 <= word(data, at) <= u128::MAX,
{
    let end = at + 16;
    lemma_le_step(data, at, end);
    lemma_le_step(data, at + 1, end);
    lemma_le_step(data, at + 2, end);
    lemma_le_step(data, at + 3, end);
    lemma_le_step(data, at + 4, end);
    lemma_le_step(data, at + 5, end);
    lemma_le_step(data, at + 6, end);
    lemma_le_step(data, at + 7, end);
    lemma_le_step(data, at + 8, end);
    lemma_le_step(data, at + 9, end);
    lemma_le_step(data, at + 10, end);
    lemma_le_step(data, at + 11, end);
    lemma_le_step(data, at + 12, end);
    lemma_le_step(data, at + 13, end);
    lemma_le_step(data, at + 14, end);
    lemma_le_step(data, at + 15, end);
    assert(data.subrange(end, end) =~= Seq::empty());
    law_u128_bytes_round_trip(0, data.subrange(at, end));
}

/// A number is written as the sixteen bytes that make it up.
pub proof fn law_bytes_make_up_word(x: u128)
    ensures
        u128_bytes(x).len() == 16,
        word(u128_bytes(x), 0) == x,
{
    let bytes = u128_bytes(x);
    law_u128_bytes_round_trip(x, seq![0u8, 0, 0, 0, 0, 0, 0, 0, 0, 0, 0, 0, 0, 0, 0, 0]);
    law_field_is_word(bytes, 0);
    assert(bytes.subrange(0, 16) =~= bytes);
}

/// A total counts each entry of its token once, and nothing else.
pub proof fn law_total(transfers: Seq<AlkaneTransfer>, t: AlkaneTransfer, id: AlkaneId)
    ensures
        total_of(Seq::empty(), id) == 0,
        t.id == id ==> total_of(transfers.push(t), id) == total_of(transfers, id) + t.value,
        t.id != id ==> total_of(transfers.push(t), id) == total_of(transfers, id),
{
    lemma_total_push(transfers, t, id);
}

/// Taking a token out of a list keeps every other entry, in its place.
pub proof fn law_without(transfers: Seq<AlkaneTransfer>, t: AlkaneTransfer, id: AlkaneId)
    ensures
        without(Seq::empty(), id) == Seq::<AlkaneTransfer>::empty(),
        t.id == id ==> without(transfers.push(t), id) == without(transfers, id),
        t.id != id ==> without(transfers.push(t), id) == without(transfers, id).push(t),
{
    reveal(Seq::filter);
    assert(transfers.push(t).drop_last() =~= transfers);
    assert(without(Seq::empty(), id) =~= Seq::<AlkaneTransfer>::empty());
}

/// A cut-off number is the number itself where it fits in 128 bits.
pub proof fn law_capped(n: nat)
    ensures
        n <= u128::MAX ==> capped(n) == n,
        n > u128::MAX ==> capped(n) == u128::MAX,
{
}

/// An amount can be taken from what came in exactly where it is positive and that
/// much of the token is there; each refusal says which of the two is missing.
pub proof fn law_extraction(incoming: Seq<AlkaneTransfer>, token: AlkaneId, amount: u128)
    ensures
        extract_refusal(incoming, token, amount) is None <==> 0 < amount <= total_of(
            incoming,
            token,
        ),
        amount == 0 ==> extract_refusal(incoming, token, amount) == Some(ZapError::ZeroAmountIn),
        amount > 0 && total_of(incoming, token) == 0 ==> extract_refusal(incoming, token, amount)
            == Some(ZapError::InputMissing { token }),
        0 < total_of(incoming, token) < amount ==> extract_refusal(incoming, token, amount)
            == Some(
            ZapError::InputExceedsReceived {
                required: amount,
                received: total_of(incoming, token) as u128,
                token,
            },
        ),
{
}

/// The change is all other tokens, and what is left of the token itself once its
/// total has been cut off at the largest 128-bit value.
pub proof fn law_change(incoming: Seq<AlkaneTransfer>, token: AlkaneId, amount: u128, id: AlkaneId)
    requires
        0 < amount <= total_of(incoming, token),
    ensures
        total_of(incoming, token) <= u128::MAX ==> total_of(
            change_of(incoming, token, amount),
            token,
        ) == total_of(incoming, token) - amount,
        total_of(incoming, token) > u128::MAX ==> total_of(
            change_of(incoming, token, amount),
            token,
        ) == u128::MAX - amount,
        id != token ==> total_of(change_of(incoming, token, amount), id) == total_of(incoming, id),
{
    let excess = (capped(total_of(incoming, token)) - amount) as u128;
    lemma_total_concat(without(incoming, token), unless_zero(token, excess), id);
    lemma_total_concat(without(incoming, token), unless_zero(token, excess), token);
    lemma_total_without(incoming, token, id);
    lemma_total_without(incoming, token, token);
    lemma_total_unless_zero(token, excess, id);
    lemma_total_unless_zero(token, excess, token);
}

/// Whether a list has one positive entry per token, in the order of the ids: by
/// block, then by transaction.
pub open spec fn is_tidy(list: Seq<AlkaneTransfer>) -> bool {
    &&& forall|i: int, j: int|
        #![trigger list[i], list[j]]
        0 <= i < j < list.len() ==> list[i].id.block < list[j].id.block || (list[i].id.block
            == list[j].id.block && list[i].id.tx < list[j].id.tx)
    &&& forall|i: int| 0 <= i < list.len() ==> (#[trigger] list[i]).value > 0
}

/// Collapsing a list makes it tidy and keeps every total that fits in 128 bits; one
/// that does not becomes the largest value.
pub proof fn law_aggregate(transfers: Seq<AlkaneTransfer>, out: Seq<AlkaneTransfer>, id: AlkaneId)
    requires
        is_aggregate(transfers, out),
    ensures
        is_tidy(out),
        total_of(transfers, id) <= u128::MAX ==> total_of(out, id) == total_of(transfers, id),
        total_of(transfers, id) > u128::MAX ==> total_of(out, id) == u128::MAX,
{
    law_aggregate_keeps_totals(transfers, out, id);
}

} // verus!
