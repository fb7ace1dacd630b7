//! Buffers by their identities.

use vstd::prelude::*;
use crate::batch::outcome_buffer;
use crate::error::PacketError;
use crate::mbuf::Mbuf;
use crate::packet::Packet;

verus! {

/// The identities of `buffers`, in order.
pub open spec fn buffer_ids(buffers: Seq<Mbuf>) -> Seq<u64> {
    Seq::new(buffers.len(), |i: int| buffers[i].id())
}

/// The identities of the buffers under `packets`, in order.
pub open spec fn packet_ids<T: Packet>(packets: Seq<T>) -> Seq<u64> {
    Seq::new(packets.len(), |i: int| packets[i].buffer().id())
}

/// The identities of the buffers that `outcomes` own, in order.
pub open spec fn outcome_ids<T: Packet>(outcomes: Seq<Result<T, PacketError>>) -> Seq<u64> {
    Seq::new(outcomes.len(), |i: int| outcome_buffer(outcomes[i]).id())
}

/// How often `id` occurs among `ids`.
pub open spec fn occurrences(ids: Seq<u64>, id: u64) -> nat
    decreases ids.len(),
{
    if ids.len() == 0 {
        0
    } else if ids.last() == id {
        occurrences(ids.drop_last(), id) + 1
    } else {
        occurrences(ids.drop_last(), id)
    }
}

/// The identities of the buffers under those of `items` that a sub-pipeline
/// disposed of itself, in order, where `fates[i]` is what it made of
/// `items[i]`.
pub open spec fn disposed_ids<T: Packet>(
    items: Seq<T>,
    fates: Seq<Option<Result<T, PacketError>>>,
) -> Seq<u64>
    decreases fates.len(),
{
    if fates.len() == 0 || items.len() != fates.len() {
        Seq::empty()
    } else {
        match fates[0] {
            Some(_) => disposed_ids(items.skip(1), fates.skip(1)),
            None => seq![items[0].buffer().id()] + disposed_ids(items.skip(1), fates.skip(1)),
        }
    }
}

/// Occurrences add up over a concatenation.
pub proof fn lemma_occurrences_add(first: Seq<u64>, second: Seq<u64>, id: u64)
    ensures
        occurrences(first + second, id) == occurrences(first, id) + occurrences(second, id),
    decreases second.len(),
{
    if second.len() == 0 {
        assert(first + second == first);
    } else {
        assert((first + second).drop_last() == first + second.drop_last());
        lemma_occurrences_add(first, second.drop_last(), id);
    }
}

/// The occurrences in a sequence, counted from its front.
pub proof fn lemma_occurrences_front(head: u64, rest: Seq<u64>, id: u64)
    ensures
        occurrences(seq![head] + rest, id) == occurrences(rest, id) + if head == id {
            1nat
        } else {
            0nat
        },
{
    lemma_occurrences_add(seq![head], rest, id);
    let one = seq![head];
    assert(one.len() == 1);
    assert(one.last() == head);
    assert(one.drop_last().len() == 0);
    assert(occurrences(one.drop_last(), id) == 0);
    assert(occurrences(one, id) == if head == id {
        1nat
    } else {
        0nat
    });
}

/// The identities of a concatenation are those of its parts.
pub proof fn lemma_buffer_ids_add(first: Seq<Mbuf>, second: Seq<Mbuf>)
    ensures
        buffer_ids(first + second) == buffer_ids(first) + buffer_ids(second),
{
    assert(buffer_ids(first + second) =~= buffer_ids(first) + buffer_ids(second));
}

/// Where every packet rejoins, the sub-pipeline disposed of none.
pub proof fn lemma_all_rejoin<T: Packet>(
    items: Seq<T>,
    fates: Seq<Option<Result<T, PacketError>>>,
)
    requires
        forall|i: int| 0 <= i < fates.len() ==> (#[trigger] fates[i]) is Some,
    ensures
        disposed_ids(items, fates) == Seq::<u64>::empty(),
    decreases fates.len(),
{
    if fates.len() > 0 && items.len() == fates.len() {
        assert(fates[0] is Some);
        lemma_all_rejoin(items.skip(1), fates.skip(1));
    }
}

/// Where no packet rejoins, the sub-pipeline disposed of all.
pub proof fn lemma_none_rejoin<T: Packet>(
    items: Seq<T>,
    fates: Seq<Option<Result<T, PacketError>>>,
)
    requires
        fates.len() == items.len(),
        forall|i: int| 0 <= i < fates.len() ==> (#[trigger] fates[i]) is None,
    ensures
        disposed_ids(items, fates) == packet_ids(items),
    decreases fates.len(),
{
    if fates.len() > 0 {
        assert(fates[0] is None);
        lemma_none_rejoin(items.skip(1), fates.skip(1));
        assert(disposed_ids(items, fates) =~= packet_ids(items));
    } else {
        assert(disposed_ids(items, fates) =~= packet_ids(items));
    }
}

} // verus!
