//! Lists of token amounts: totals, sorting out one token, and collapsing a list
//! to one entry per token.

use crate::types::{capped, id_precedes, AlkaneId, AlkaneTransfer, CallResponse, ZapError};
use vstd::prelude::*;

verus! {

/// How much of `id` a list holds.
pub open spec fn total_of(transfers: Seq<AlkaneTransfer>, id: AlkaneId) -> nat
    decreases transfers.len(),
{
    if transfers.len() == 0 {
        0
    } else {
        total_of(transfers.drop_last(), id) + amount_of(transfers.last(), id)
    }
}

/// How much of `id` one transfer is.
pub open spec fn amount_of(transfer: AlkaneTransfer, id: AlkaneId) -> nat {
    if transfer.id == id {
        transfer.value as nat
    } else {
        0
    }
}

/// The entries of a list that are not of `id`, in their order.
pub open spec fn without(transfers: Seq<AlkaneTransfer>, id: AlkaneId) -> Seq<AlkaneTransfer> {
    transfers.filter(|t: AlkaneTransfer| t.id != id)
}

/// A single transfer as a list, empty where there is nothing to transfer.
pub open spec fn unless_zero(id: AlkaneId, value: u128) -> Seq<AlkaneTransfer> {
    if value == 0 {
        Seq::empty()
    } else {
        seq![AlkaneTransfer { id, value }]
    }
}

/// Adding an entry adds its amount.
pub proof fn lemma_total_push(transfers: Seq<AlkaneTransfer>, t: AlkaneTransfer, id: AlkaneId)
    ensures
        total_of(transfers.push(t), id) == total_of(transfers, id) + amount_of(t, id),
{
    assert(transfers.push(t).drop_last() =~= transfers);
}

/// The total of two lists is the sum of their totals.
pub proof fn lemma_total_concat(a: Seq<AlkaneTransfer>, b: Seq<AlkaneTransfer>, id: AlkaneId)
    ensures
        total_of(a + b, id) == total_of(a, id) + total_of(b, id),
    decreases b.len(),
{
    if b.len() == 0 {
        assert(a + b =~= a);
    } else {
        lemma_total_concat(a, b.drop_last(), id);
        assert((a + b).drop_last() =~= a + b.drop_last());
    }
}

/// The total of a single transfer is its amount.
pub proof fn lemma_total_single(t: AlkaneTransfer, id: AlkaneId)
    ensures
        total_of(seq![t], id) == amount_of(t, id),
{
    assert(seq![t] =~= Seq::<AlkaneTransfer>::empty().push(t));
    lemma_total_push(Seq::empty(), t, id);
}

/// The total of a transfer that is left out where it is zero.
pub proof fn lemma_total_unless_zero(token: AlkaneId, value: u128, id: AlkaneId)
    ensures
        total_of(unless_zero(token, value), id) == (if token == id {
            value as nat
        } else {
            0
        }),
{
    lemma_total_single(AlkaneTransfer { id: token, value }, id);
}

/// Taking out one token leaves the totals of the others as they were.
pub proof fn lemma_total_without(transfers: Seq<AlkaneTransfer>, gone: AlkaneId, id: AlkaneId)
    ensures
        total_of(without(transfers, gone), id) == (if id == gone {
            0
        } else {
            total_of(transfers, id)
        }),
    decreases transfers.len(),
{
    reveal(Seq::filter);
    if transfers.len() > 0 {
        lemma_total_without(transfers.drop_last(), gone, id);
        lemma_total_push(without(transfers.drop_last(), gone), transfers.last(), id);
    }
}

/// Separates one token from a list: how much of it there is, cut off at the
/// largest 128-bit value, and the other entries.
pub fn split_token(transfers: &Vec<AlkaneTransfer>, id: AlkaneId) -> (r: (
    u128,
    Vec<AlkaneTransfer>,
))
    ensures
        r.0 == capped(total_of(transfers@, id)),
        r.1@ == without(transfers@, id),
{
    let mut total: u128 = 0;
    let mut others: Vec<AlkaneTransfer> = Vec::new();
    let mut i: usize = 0;
    proof {
        reveal(Seq::filter);
        assert(transfers@.take(0) =~= Seq::empty());
    }
    while i < transfers.len()
        invariant
            i <= transfers.len(),
            total == capped(total_of(transfers@.take(i as int), id)),
            others@ == without(transfers@.take(i as int), id),
        decreases transfers.len() - i,
    {
        let tr = transfers[i];
        proof {
            reveal(Seq::filter);
            assert(transfers@.take(i + 1).drop_last() =~= transfers@.take(i as int));
        }
        if tr.id == id {
            total = total.saturating_add(tr.value);
        } else {
            others.push(tr);
        }
        i = i + 1;
    }
    proof {
        assert(transfers@.take(i as int) =~= transfers@);
    }
    (total, others)
}

/// Appends the entries of `more` to `list`.
pub fn append_transfers(list: &mut Vec<AlkaneTransfer>, more: &Vec<AlkaneTransfer>)
    ensures
        final(list)@ == old(list)@ + more@,
{
    let mut i: usize = 0;
    proof {
        assert(list@ =~= old(list)@ + more@.take(0));
    }
    while i < more.len()
        invariant
            i <= more.len(),
            list@ == old(list)@ + more@.take(i as int),
        decreases more.len() - i,
    {
        list.push(more[i]);
        proof {
            assert(list@ =~= old(list)@ + more@.take(i + 1));
        }
        i = i + 1;
    }
    proof {
        assert(more@.take(i as int) =~= more@);
    }
}

/// Whether `out` is `transfers` with one entry per token: the tokens that occur
/// with a positive total, in the order of their ids, each with its total (cut
/// off at the largest 128-bit value).
pub open spec fn is_aggregate(transfers: Seq<AlkaneTransfer>, out: Seq<AlkaneTransfer>) -> bool {
    &&& forall|i: int, j: int|
        0 <= i < j < out.len() ==> id_precedes(#[trigger] out[i].id, #[trigger] out[j].id)
    &&& forall|i: int|
        0 <= i < out.len() ==> (#[trigger] out[i]).value > 0 && out[i].value == capped(
            total_of(transfers, out[i].id),
        )
    &&& forall|id: AlkaneId| #[trigger]
        total_of(transfers, id) > 0 ==> exists|i: int|
            0 <= i < out.len() && #[trigger] out[i].id == id
}

/// Where the id belongs in a list that is sorted by id: the number of entries
/// with a smaller id.
fn position(list: &Vec<AlkaneTransfer>, id: AlkaneId) -> (r: usize)
    ensures
        r <= list.len(),
        forall|i: int| 0 <= i < r ==> id_precedes(#[trigger] list[i].id, id),
        r < list.len() ==> !id_precedes(list[r as int].id, id),
{
    let mut i: usize = 0;
    while i < list.len()
        invariant
            i <= list.len(),
            forall|j: int| 0 <= j < i ==> id_precedes(#[trigger] list[j].id, id),
        decreases list.len() - i,
    {
        let other = list[i].id;
        if !(other.block < id.block || (other.block == id.block && other.tx < id.tx)) {
            return i;
        }
        i = i + 1;
    }
    i
}

/// Collapses repeated ids into a single transfer per id, in the order of the
/// ids; tokens of which there is nothing are left out.
pub fn aggregate_transfers(transfers: Vec<AlkaneTransfer>) -> (r: Vec<AlkaneTransfer>)
    ensures
        is_aggregate(transfers@, r@),
{
    let mut out: Vec<AlkaneTransfer> = Vec::new();
    let mut i: usize = 0;
    while i < transfers.len()
        invariant
            i <= transfers.len(),
            is_aggregate(transfers@.take(i as int), out@),
        decreases transfers.len() - i,
    {
        let tr = transfers[i];
        let ghost seen = transfers@.take(i as int);
        let ghost next = transfers@.take(i + 1);
        let ghost before = out@;
        proof {
            assert(next =~= seen.push(tr));
            assert forall|id: AlkaneId| #[trigger]
                total_of(next, id) == total_of(seen, id) + amount_of(tr, id) by {
                lemma_total_push(seen, tr, id);
            }
        }
        if tr.value > 0 {
            let at = position(&out, tr.id);
            if at < out.len() && out[at].id == tr.id {
                let value: u128 = out[at].value.saturating_add(tr.value);
                out.set(at, AlkaneTransfer { id: tr.id, value });
                proof {
                    assert forall|id: AlkaneId| #[trigger]
                        total_of(next, id) > 0 implies exists|k: int|
                        0 <= k < out.len() && #[trigger] out[k].id == id by {
                        if id == tr.id {
                            assert(out[at as int].id == id);
                        } else {
                            assert(total_of(seen, id) > 0);
                            let k = choose|k: int|
                                0 <= k < before.len() && #[trigger] before[k].id == id;
                            assert(out[k].id == id);
                        }
                    }
                }
            } else {
                proof {
                    if total_of(seen, tr.id) > 0 {
                        let k = choose|k: int|
                            0 <= k < before.len() && #[trigger] before[k].id == tr.id;
                        if k >= at {
                            assert(id_precedes(before[at as int].id, before[k].id) || k == at);
                        }
                        assert(false);
                    }
                }
                out.insert(at, tr);
                proof {
                    assert forall|id: AlkaneId| #[trigger]
                        total_of(next, id) > 0 implies exists|k: int|
                        0 <= k < out.len() && #[trigger] out[k].id == id by {
                        if id == tr.id {
                            assert(out[at as int].id == id);
                        } else {
                            assert(total_of(seen, id) > 0);
                            let k = choose|k: int|
                                0 <= k < before.len() && #[trigger] before[k].id == id;
                            if k < at {
                                assert(out[k].id == id);
                            } else {
                                assert(out[k + 1].id == id);
                            }
                        }
                    }
                }
            }
        } else {
            proof {
                assert forall|id: AlkaneId| #[trigger] total_of(next, id) > 0 implies exists|k: int|
                    0 <= k < out.len() && #[trigger] out[k].id == id by {
                    assert(total_of(seen, id) > 0);
                }
            }
        }
        i = i + 1;
    }
    proof {
        assert(transfers@.take(i as int) =~= transfers@);
    }
    out
}

/// In a list without repetition the total of a token is its entry's value.
proof fn lemma_total_of_entry(list: Seq<AlkaneTransfer>, at: int)
    requires
        0 <= at < list.len(),
        forall|i: int, j: int|
            0 <= i < j < list.len() ==> id_precedes(#[trigger] list[i].id, #[trigger] list[j].id),
    ensures
        total_of(list, list[at].id) == list[at].value,
    decreases list.len(),
{
    let id = list[at].id;
    if at == list.len() - 1 {
        lemma_total_absent(list.drop_last(), id);
    } else {
        lemma_total_of_entry(list.drop_last(), at);
        assert(id_precedes(list[at].id, list[list.len() - 1].id));
    }
}

/// A token that does not occur has no total.
proof fn lemma_total_absent(list: Seq<AlkaneTransfer>, id: AlkaneId)
    requires
        forall|i: int| 0 <= i < list.len() ==> #[trigger] list[i].id != id,
    ensures
        total_of(list, id) == 0,
    decreases list.len(),
{
    if list.len() > 0 {
        lemma_total_absent(list.drop_last(), id);
        assert(list[list.len() - 1].id != id);
    }
}

/// Collapsing a list keeps the total of every token, cut off at the largest
/// 128-bit value.
pub proof fn law_aggregate_keeps_totals(
    transfers: Seq<AlkaneTransfer>,
    out: Seq<AlkaneTransfer>,
    id: AlkaneId,
)
    requires
        is_aggregate(transfers, out),
    ensures
        total_of(out, id) == capped(total_of(transfers, id)),
{
    if exists|i: int| 0 <= i < out.len() && #[trigger] out[i].id == id {
        let at = choose|i: int| 0 <= i < out.len() && #[trigger] out[i].id == id;
        lemma_total_of_entry(out, at);
        assert(out[at].value == capped(total_of(transfers, id)));
    } else {
        lemma_total_absent(out, id);
    }
}

/// Two ways to collapse a list agree on their first `k` entries.
proof fn lemma_aggregates_agree(
    transfers: Seq<AlkaneTransfer>,
    a: Seq<AlkaneTransfer>,
    b: Seq<AlkaneTransfer>,
    k: int,
)
    requires
        is_aggregate(transfers, a),
        is_aggregate(transfers, b),
        0 <= k <= a.len(),
    ensures
        k <= b.len(),
        forall|i: int| 0 <= i < k ==> #[trigger] a[i] == b[i],
    decreases k,
{
    if k > 0 {
        let p = k - 1;
        lemma_aggregates_agree(transfers, a, b, p);
        assert(a[p].value > 0);
        assert(total_of(transfers, a[p].id) > 0);
        let j = choose|j: int| 0 <= j < b.len() && #[trigger] b[j].id == a[p].id;
        if j < p {
            assert(a[j] == b[j]);
            assert(id_precedes(a[j].id, a[p].id));
        }
        assert(b[p].value > 0);
        assert(total_of(transfers, b[p].id) > 0);
        let m = choose|m: int| 0 <= m < a.len() && #[trigger] a[m].id == b[p].id;
        if m < p {
            assert(a[m] == b[m]);
            assert(id_precedes(b[m].id, b[p].id));
        }
        if j > p {
            assert(id_precedes(b[p].id, b[j].id));
        }
        if m > p {
            assert(id_precedes(a[p].id, a[m].id));
        }
        assert(a[p] == b[p]);
    }
}

/// A list collapses in one way only, so the order and the amounts of a response
/// are determined by what it carries.
pub proof fn law_aggregate_unique(
    transfers: Seq<AlkaneTransfer>,
    a: Seq<AlkaneTransfer>,
    b: Seq<AlkaneTransfer>,
)
    requires
        is_aggregate(transfers, a),
        is_aggregate(transfers, b),
    ensures
        a == b,
{
    lemma_aggregates_agree(transfers, a, b, a.len() as int);
    lemma_aggregates_agree(transfers, b, a, b.len() as int);
    assert(a =~= b);
}

/// Whether a response carries `transfers`, one entry per token, and `data`.
pub open spec fn response_carries(
    response: CallResponse,
    transfers: Seq<AlkaneTransfer>,
    data: Seq<u8>,
) -> bool {
    &&& is_aggregate(transfers, response.alkanes@)
    &&& response.data@ == data
}

/// Assembles a response from a transfer list, duplicates collapsed, and return
/// data.
pub fn make_response(transfers: Vec<AlkaneTransfer>, data: Vec<u8>) -> (r: CallResponse)
    ensures
        response_carries(r, transfers@, data@),
{
    CallResponse { alkanes: aggregate_transfers(transfers), data }
}

/// The first reason, if any, why `amount` of `token` cannot be taken from
/// `incoming`.
pub open spec fn extract_refusal(
    incoming: Seq<AlkaneTransfer>,
    token: AlkaneId,
    amount: u128,
) -> Option<ZapError> {
    let received = capped(total_of(incoming, token));
    if amount == 0 {
        Some(ZapError::ZeroAmountIn)
    } else if received == 0 {
        Some(ZapError::InputMissing { token })
    } else if amount > received {
        Some(ZapError::InputExceedsReceived { required: amount, received, token })
    } else {
        None
    }
}

/// What is left of `incoming` once `amount` of `token` has been taken out: the
/// other tokens in their order, then the excess of `token`.
pub open spec fn change_of(
    incoming: Seq<AlkaneTransfer>,
    token: AlkaneId,
    amount: u128,
) -> Seq<AlkaneTransfer> {
    without(incoming, token) + unless_zero(
        token,
        (capped(total_of(incoming, token)) - amount) as u128,
    )
}

/// Taking out an amount that is there keeps the total of every token.
pub proof fn lemma_total_change(
    incoming: Seq<AlkaneTransfer>,
    token: AlkaneId,
    amount: u128,
    id: AlkaneId,
)
    requires
        extract_refusal(incoming, token, amount) is None,
        total_of(incoming, token) <= u128::MAX,
    ensures
        total_of(change_of(incoming, token, amount), id) + (if id == token {
            amount as nat
        } else {
            0
        }) == total_of(incoming, id),
{
    let excess = (capped(total_of(incoming, token)) - amount) as u128;
    lemma_total_concat(without(incoming, token), unless_zero(token, excess), id);
    lemma_total_without(incoming, token, id);
    lemma_total_unless_zero(token, excess, id);
}

} // verus!
