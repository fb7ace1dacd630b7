//! What holds of every pipeline, whatever its stages.

use vstd::prelude::*;
use crate::batch::{outcome_buffer, Stage};
use crate::error::{Fault, PacketError};
use crate::filter_batch::filtered;
use crate::group::Group;
use crate::group_by::{
    answered, bypassed, classified, joined, lane_items, lane_of, rejoined,
};
use crate::ids::{
    buffer_ids, disposed_ids, lemma_buffer_ids_add, lemma_occurrences_add,
    lemma_occurrences_front, occurrences, outcome_ids, packet_ids,
};
use crate::map_batch::{keeps_buffer, lifted, mapped};
use crate::mbuf::Mbuf;
use crate::packet::Packet;
use crate::queue::PacketTx;
use crate::send_batch::{casualties, survivors, Report, SendBatch};

verus! {

/// The index among `outcomes` of the packet that is the `k`-th survivor.
pub open spec fn position<T: Packet>(outcomes: Seq<Result<T, PacketError>>, k: int) -> int
    decreases outcomes.len(),
{
    if outcomes.len() == 0 {
        0
    } else if outcomes.last() is Ok && k == survivors(outcomes.drop_last()).len() {
        outcomes.len() - 1
    } else {
        position(outcomes.drop_last(), k)
    }
}

proof fn lemma_outcomes_part<T: Packet>(outcomes: Seq<Result<T, PacketError>>, id: u64)
    ensures
        occurrences(outcome_ids(outcomes), id) == occurrences(buffer_ids(survivors(outcomes)), id)
            + occurrences(buffer_ids(casualties(outcomes)), id),
    decreases outcomes.len(),
{
    if outcomes.len() > 0 {
        let rest = outcomes.drop_last();
        lemma_outcomes_part(rest, id);
        assert(outcome_ids(outcomes).drop_last() == outcome_ids(rest));
        match outcomes.last() {
            Ok(item) => {
                assert(buffer_ids(survivors(outcomes)).drop_last() == buffer_ids(survivors(rest)));
            },
            Err(error) => {
                assert(buffer_ids(casualties(outcomes)).drop_last() == buffer_ids(
                    casualties(rest),
                ));
            },
        }
    }
}

/// Buffer conservation. Of the buffers that a pipeline brings before its
/// send operator in a poll cycle, each one is taken by the port for
/// transmission or released, as often as it came: never both, never neither.
/// Behind heads, filters and maps these are the buffers that entered the
/// pipeline; what a group-by stage keeps from the send operator is accounted
/// for by `lanes_conserve_buffers`.
pub proof fn buffers_conserved<B: Stage, Tx: PacketTx>(
    source: B,
    before: Tx,
    after: Tx,
    outcomes: Seq<Result<B::Item, PacketError>>,
    report: Report,
    id: u64,
)
    requires
        source.inv(),
        outcomes.len() == source.cycle().len(),
        forall|i: int|
            0 <= i < outcomes.len() ==> source.yields(source.cycle()[i], #[trigger] outcomes[i]),
        SendBatch::<B, Tx>::settled(before, after, outcomes, report),
    ensures
        report.transmitted + report.released() == source.cycle().len(),
        occurrences(packet_ids(source.cycle()), id) == occurrences(
            buffer_ids(after.sent().skip(before.sent().len() as int)),
            id,
        ) + occurrences(buffer_ids(after.released().skip(before.released().len() as int)), id),
{
    let offered = survivors(outcomes);
    let failed = casualties(outcomes);
    let count = report.transmitted as int;
    crate::send_batch::lemma_every_outcome_counted(outcomes);
    assert(after.sent().skip(before.sent().len() as int) == offered.take(count));
    assert(after.released().skip(before.released().len() as int) == failed + offered.skip(count));
    assert(outcome_ids(outcomes) =~= packet_ids(source.cycle())) by {
        assert forall|i: int| 0 <= i < outcomes.len() implies outcome_ids(outcomes)[i]
            == packet_ids(source.cycle())[i] by {
            source.yields_keeps_buffer(source.cycle()[i], outcomes[i]);
        }
    }
    lemma_outcomes_part(outcomes, id);
    assert(offered == offered.take(count) + offered.skip(count));
    lemma_buffer_ids_add(offered.take(count), offered.skip(count));
    lemma_occurrences_add(buffer_ids(offered.take(count)), buffer_ids(offered.skip(count)), id);
    lemma_buffer_ids_add(failed, offered.skip(count));
    lemma_occurrences_add(buffer_ids(failed), buffer_ids(offered.skip(count)), id);
}

/// Filter exclusivity. A packet that the predicate does not accept leaves the
/// filter as a drop that owns the packet's buffer; a packet that the
/// predicate does not reject leaves it unchanged; and nothing else comes out
/// of a filter for a packet.
pub proof fn filter_is_exclusive<T: Packet, P: Fn(&T) -> bool>(
    predicate: P,
    item: T,
    outcome: Result<T, PacketError>,
)
    requires
        filtered(predicate, Ok(item), outcome),
    ensures
        !predicate.ensures((&item,), true) ==> outcome == Err::<T, PacketError>(
            PacketError::Drop(item.buffer()),
        ),
        !predicate.ensures((&item,), false) ==> outcome == Ok::<T, PacketError>(item),
        outcome is Ok ==> outcome == Ok::<T, PacketError>(item) && predicate.ensures(
            (&item,),
            true,
        ),
        outcome is Err ==> outcome == Err::<T, PacketError>(PacketError::Drop(item.buffer()))
            && predicate.ensures((&item,), false),
{
}

/// Errors are settled where they arise: a filter hands on the error it is
/// given, whatever its predicate, and so does a map, whatever its transform.
pub proof fn errors_pass_unchanged<
    S: Packet,
    T: Packet,
    P: Fn(&S) -> bool,
    M: Fn(S) -> Result<T, Fault>,
>(
    predicate: P,
    map: M,
    error: PacketError,
    after_filter: Result<S, PacketError>,
    after_map: Result<T, PacketError>,
)
    requires
        filtered(predicate, Err(error), after_filter),
        mapped(map, Err(error), after_map),
    ensures
        after_filter == Err::<S, PacketError>(error),
        after_map == Err::<T, PacketError>(error),
{
}

/// Map failure safety. Whether the transform succeeds or fails, what leaves
/// the map owns the buffer of the packet that entered it; where the transform
/// fails, that is an abort with the buffer and the cause that the transform
/// handed back.
pub proof fn map_keeps_buffer<S: Packet, T: Packet, M: Fn(S) -> Result<T, Fault>>(
    map: M,
    item: S,
    outcome: Result<T, PacketError>,
)
    requires
        forall|result: Result<T, Fault>|
            map.ensures((item,), result) ==> keeps_buffer(item, result),
        mapped(map, Ok(item), outcome),
    ensures
        outcome_buffer(outcome).id() == item.buffer().id(),
        outcome is Err ==> exists|fault: Fault|
            #[trigger] map.ensures((item,), Err::<T, Fault>(fault)) && outcome == Err::<
                T,
                PacketError,
            >(PacketError::Abort(fault.buffer, fault.cause)),
        outcome is Ok ==> map.ensures((item,), Ok::<T, Fault>(outcome->Ok_0)),
{
    let result = choose|result: Result<T, Fault>|
        #[trigger] map.ensures((item,), result) && outcome == lifted(result);
    assert(keeps_buffer(item, result));
    match result {
        Ok(packet) => {},
        Err(fault) => {
        },
    }
}

/// The buffer of every packet that reaches the end of the pipeline as an error
/// is among those that are released.
pub proof fn errors_are_released<T: Packet>(outcomes: Seq<Result<T, PacketError>>, i: int)
    requires
        0 <= i < outcomes.len(),
        outcomes[i] is Err,
    ensures
        casualties(outcomes).contains(outcome_buffer(outcomes[i])),
    decreases outcomes.len(),
{
    let rest = outcomes.drop_last();
    if i == outcomes.len() - 1 {
        let last = casualties(outcomes).len() - 1;
        assert(casualties(outcomes)[last] == outcome_buffer(outcomes[i]));
    } else {
        errors_are_released(rest, i);
        let k = choose|k: int|
            0 <= k < casualties(rest).len() && casualties(rest)[k] == outcome_buffer(rest[i]);
        assert(casualties(outcomes)[k] == outcome_buffer(outcomes[i]));
    }
}

/// Every survivor is the buffer of a packet that came out of the pipeline as
/// `Ok`, at the index that `position` gives.
pub proof fn survivors_are_ok<T: Packet>(outcomes: Seq<Result<T, PacketError>>, k: int)
    requires
        0 <= k < survivors(outcomes).len(),
    ensures
        0 <= position(outcomes, k) < outcomes.len(),
        outcomes[position(outcomes, k)] is Ok,
        outcome_buffer(outcomes[position(outcomes, k)]) == survivors(outcomes)[k],
        survivors(outcomes.take(position(outcomes, k))).len() == k,
    decreases outcomes.len(),
{
    let rest = outcomes.drop_last();
    if !(outcomes.last() is Ok && k == survivors(rest).len()) {
        survivors_are_ok(rest, k);
        assert(outcomes.take(position(rest, k)) == rest.take(position(rest, k)));
    }
}

/// Order preservation. The survivors are offered to the port in the order in
/// which their packets entered the pipeline: a survivor that comes later is
/// the buffer of a packet that entered later.
pub proof fn survivors_keep_order<B: Stage>(
    source: B,
    outcomes: Seq<Result<B::Item, PacketError>>,
    first: int,
    second: int,
)
    requires
        source.inv(),
        outcomes.len() == source.cycle().len(),
        forall|i: int|
            0 <= i < outcomes.len() ==> source.yields(source.cycle()[i], #[trigger] outcomes[i]),
        0 <= first < second < survivors(outcomes).len(),
    ensures
        0 <= position(outcomes, first) < position(outcomes, second) < outcomes.len(),
        survivors(outcomes)[first].id() == source.cycle()[position(
            outcomes,
            first,
        )].buffer().id(),
        survivors(outcomes)[second].id() == source.cycle()[position(
            outcomes,
            second,
        )].buffer().id(),
{
    survivors_are_ok(outcomes, first);
    survivors_are_ok(outcomes, second);
    let p = position(outcomes, first);
    let q = position(outcomes, second);
    source.yields_keeps_buffer(source.cycle()[p], outcomes[p]);
    source.yields_keeps_buffer(source.cycle()[q], outcomes[q]);
    if q <= p {
        lemma_survivors_grow(outcomes.take(p), q);
        assert(outcomes.take(p).take(q) == outcomes.take(q));
    }
}

proof fn lemma_survivors_grow<T: Packet>(outcomes: Seq<Result<T, PacketError>>, at: int)
    requires
        0 <= at <= outcomes.len(),
    ensures
        survivors(outcomes.take(at)).len() <= survivors(outcomes).len(),
    decreases outcomes.len() - at,
{
    if at < outcomes.len() {
        assert(outcomes.take(at + 1).drop_last() == outcomes.take(at));
        lemma_survivors_grow(outcomes, at + 1);
    } else {
        assert(outcomes.take(at) == outcomes);
    }
}

/// How many packets among `drained` are staged for the sub-pipelines of the
/// first `count` lanes, all together.
pub open spec fn staged_total<T>(
    drained: Seq<Result<T, PacketError>>,
    lanes: Seq<int>,
    count: int,
) -> nat
    decreases count,
{
    if count <= 0 {
        0
    } else {
        staged_total(drained, lanes, count - 1) + lane_items(drained, lanes, count - 1).len()
    }
}

proof fn lemma_lane_in_range<K>(keys: Seq<K>, key: K)
    ensures
        0 <= lane_of(keys, key) <= keys.len(),
    decreases keys.len(),
{
    if keys.len() > 0 && keys[0] != key {
        lemma_lane_in_range(keys.skip(1), key);
    }
}

proof fn lemma_staged_total_grows<T>(
    drained: Seq<Result<T, PacketError>>,
    lanes: Seq<int>,
    last: Result<T, PacketError>,
    lane: int,
    count: int,
)
    requires
        lanes.len() == drained.len(),
        0 <= lane,
        0 <= count,
    ensures
        staged_total(drained.push(last), lanes.push(lane), count) == staged_total(
            drained,
            lanes,
            count,
        ) + if last is Ok && lane < count {
            1nat
        } else {
            0nat
        },
    decreases count,
{
    if count > 0 {
        lemma_staged_total_grows(drained, lanes, last, lane, count - 1);
        assert(drained.push(last).drop_last() == drained);
        assert(lanes.push(lane).drop_last() == lanes);
    }
}

/// A group-by operator loses nothing. Every result that the batch before it
/// gives either bypasses the sub-pipelines or is staged for exactly one of
/// them.
pub proof fn group_by_loses_nothing<T, K, C: Fn(&T) -> K>(
    classifier: C,
    keys: Seq<K>,
    drained: Seq<Result<T, PacketError>>,
    lanes: Seq<int>,
)
    requires
        lanes.len() == drained.len(),
        forall|i: int|
            0 <= i < drained.len() ==> classified(classifier, keys, #[trigger] drained[i], lanes[i]),
    ensures
        bypassed(drained, lanes, keys.len() as int).len() + staged_total(
            drained,
            lanes,
            keys.len() as int,
        ) == drained.len(),
    decreases drained.len(),
{
    let count = keys.len() as int;
    if drained.len() > 0 {
        let rest = drained.drop_last();
        let rest_lanes = lanes.drop_last();
        let last = drained.last();
        let lane = lanes.last();
        assert(classified(classifier, keys, drained[drained.len() - 1], lanes[drained.len() - 1]));
        assert forall|i: int| 0 <= i < rest.len() implies classified(
            classifier,
            keys,
            #[trigger] rest[i],
            rest_lanes[i],
        ) by {
            assert(classified(classifier, keys, drained[i], lanes[i]));
        }
        group_by_loses_nothing(classifier, keys, rest, rest_lanes);
        if let Ok(item) = last {
            let key = choose|key: K|
                #[trigger] classifier.ensures((&item,), key) && lane == lane_of(keys, key);
            lemma_lane_in_range(keys, key);
        }
        lemma_staged_total_grows(rest, rest_lanes, last, lane, count);
        assert(rest.push(last) == drained);
        assert(rest_lanes.push(lane) == lanes);
    } else {
        lemma_no_packets_staged(drained, lanes, count);
    }
}

proof fn lemma_no_packets_staged<T>(
    drained: Seq<Result<T, PacketError>>,
    lanes: Seq<int>,
    count: int,
)
    requires
        drained.len() == 0,
    ensures
        staged_total(drained, lanes, count) == 0,
    decreases count,
{
    if count > 0 {
        lemma_no_packets_staged(drained, lanes, count - 1);
    }
}

/// How often `id` is the identity of the buffer under a packet that is
/// staged for one of the first `count` lanes.
pub open spec fn staged_in_lanes<T: Packet>(
    drained: Seq<Result<T, PacketError>>,
    lanes: Seq<int>,
    count: int,
    id: u64,
) -> nat
    decreases count,
{
    if count <= 0 {
        0
    } else {
        staged_in_lanes(drained, lanes, count - 1, id) + occurrences(
            packet_ids(lane_items(drained, lanes, count - 1)),
            id,
        )
    }
}

/// How often `id` is the identity of the buffer of a result that one of the
/// first `count` sub-pipelines hands back.
pub open spec fn rejoined_from_lanes<T: Packet>(
    fates: Seq<Seq<Option<Result<T, PacketError>>>>,
    count: int,
    id: u64,
) -> nat
    decreases count,
{
    if count <= 0 {
        0
    } else {
        rejoined_from_lanes(fates, count - 1, id) + occurrences(
            outcome_ids(rejoined(fates[count - 1])),
            id,
        )
    }
}

/// How often the first `count` sub-pipelines disposed of a buffer with the
/// identity `id` themselves in the poll cycle.
pub open spec fn disposed_in_lanes<T: Packet>(
    drained: Seq<Result<T, PacketError>>,
    lanes: Seq<int>,
    fates: Seq<Seq<Option<Result<T, PacketError>>>>,
    count: int,
    id: u64,
) -> nat
    decreases count,
{
    if count <= 0 {
        0
    } else {
        disposed_in_lanes(drained, lanes, fates, count - 1, id) + occurrences(
            disposed_ids(lane_items(drained, lanes, count - 1), fates[count - 1]),
            id,
        )
    }
}

proof fn lemma_outcome_ids_add<T: Packet>(
    first: Seq<Result<T, PacketError>>,
    second: Seq<Result<T, PacketError>>,
)
    ensures
        outcome_ids(first + second) == outcome_ids(first) + outcome_ids(second),
{
    assert(outcome_ids(first + second) =~= outcome_ids(first) + outcome_ids(second));
}

proof fn lemma_staged_in_lanes_grows<T: Packet>(
    drained: Seq<Result<T, PacketError>>,
    lanes: Seq<int>,
    last: Result<T, PacketError>,
    lane: int,
    count: int,
    id: u64,
)
    requires
        lanes.len() == drained.len(),
        0 <= lane,
        0 <= count,
    ensures
        staged_in_lanes(drained.push(last), lanes.push(lane), count, id) == staged_in_lanes(
            drained,
            lanes,
            count,
            id,
        ) + if last is Ok && lane < count && outcome_buffer(last).id() == id {
            1nat
        } else {
            0nat
        },
    decreases count,
{
    if count > 0 {
        lemma_staged_in_lanes_grows(drained, lanes, last, lane, count - 1, id);
        assert(drained.push(last).drop_last() == drained);
        assert(lanes.push(lane).drop_last() == lanes);
        let before = lane_items(drained, lanes, count - 1);
        let after = lane_items(drained.push(last), lanes.push(lane), count - 1);
        if last is Ok && lane == count - 1 {
            assert(after == before.push(last->Ok_0));
            assert(packet_ids(after).drop_last() =~= packet_ids(before));
        } else {
            assert(after == before);
        }
    }
}

proof fn lemma_lanes_part<T: Packet>(
    drained: Seq<Result<T, PacketError>>,
    lanes: Seq<int>,
    count: int,
    id: u64,
)
    requires
        lanes.len() == drained.len(),
        0 <= count,
        forall|i: int| 0 <= i < lanes.len() ==> 0 <= #[trigger] lanes[i],
        forall|i: int| 0 <= i < drained.len() && (#[trigger] drained[i]) is Err ==> lanes[i] >= count,
    ensures
        occurrences(outcome_ids(drained), id) == occurrences(
            outcome_ids(bypassed(drained, lanes, count)),
            id,
        ) + staged_in_lanes(drained, lanes, count, id),
    decreases drained.len(),
{
    if drained.len() > 0 {
        let rest = drained.drop_last();
        let rest_lanes = lanes.drop_last();
        let last = drained.last();
        let lane = lanes.last();
        lemma_lanes_part(rest, rest_lanes, count, id);
        lemma_staged_in_lanes_grows(rest, rest_lanes, last, lane, count, id);
        assert(rest.push(last) == drained);
        assert(rest_lanes.push(lane) == lanes);
        assert(outcome_ids(drained).drop_last() =~= outcome_ids(rest));
        if last is Err || lane >= count {
            assert(bypassed(drained, lanes, count) == bypassed(rest, rest_lanes, count).push(last));
            assert(outcome_ids(bypassed(drained, lanes, count)).drop_last() =~= outcome_ids(
                bypassed(rest, rest_lanes, count),
            ));
        }
    } else {
        lemma_nothing_staged_in_lanes(drained, lanes, count, id);
    }
}

proof fn lemma_nothing_staged_in_lanes<T: Packet>(
    drained: Seq<Result<T, PacketError>>,
    lanes: Seq<int>,
    count: int,
    id: u64,
)
    requires
        drained.len() == 0,
    ensures
        staged_in_lanes(drained, lanes, count, id) == 0,
    decreases count,
{
    if count > 0 {
        lemma_nothing_staged_in_lanes(drained, lanes, count - 1, id);
        assert(packet_ids(lane_items(drained, lanes, count - 1)) =~= Seq::<u64>::empty());
    }
}

/// Of the packets given to a sub-pipeline, each either comes back as a result
/// that owns its buffer, or is disposed of by the sub-pipeline.
pub proof fn lane_accounts_for_buffers<G: Group>(
    group: G,
    items: Seq<G::Item>,
    fates: Seq<Option<Result<G::Item, PacketError>>>,
    id: u64,
)
    requires
        group.ready(),
        fates.len() == items.len(),
        forall|k: int| 0 <= k < items.len() ==> group.handles(items[k], #[trigger] fates[k]),
    ensures
        occurrences(packet_ids(items), id) == occurrences(outcome_ids(rejoined(fates)), id)
            + occurrences(disposed_ids(items, fates), id),
    decreases fates.len(),
{
    if fates.len() > 0 {
        let rest_items = items.skip(1);
        let rest_fates = fates.skip(1);
        assert forall|k: int| 0 <= k < rest_items.len() implies group.handles(
            rest_items[k],
            #[trigger] rest_fates[k],
        ) by {
            assert(group.handles(items[k + 1], fates[k + 1]));
        }
        lane_accounts_for_buffers(group, rest_items, rest_fates, id);
        let head = items[0].buffer().id();
        assert(packet_ids(items) =~= seq![head] + packet_ids(rest_items));
        lemma_occurrences_front(head, packet_ids(rest_items), id);
        assert(group.handles(items[0], fates[0]));
        match fates[0] {
            Some(outcome) => {
                group.handles_keeps_buffer(items[0], outcome);
                assert(outcome_ids(rejoined(fates)) =~= seq![head] + outcome_ids(
                    rejoined(rest_fates),
                ));
                lemma_occurrences_front(head, outcome_ids(rejoined(rest_fates)), id);
            },
            None => {
                lemma_occurrences_front(head, disposed_ids(rest_items, rest_fates), id);
            },
        }
    } else {
        assert(packet_ids(items) =~= Seq::<u64>::empty());
        assert(outcome_ids(rejoined(fates)) =~= Seq::<u64>::empty());
    }
}

proof fn lemma_lanes_account<G: Group>(
    groups: Seq<G>,
    drained: Seq<Result<G::Item, PacketError>>,
    lanes: Seq<int>,
    fates: Seq<Seq<Option<Result<G::Item, PacketError>>>>,
    count: int,
    id: u64,
)
    requires
        0 <= count <= groups.len(),
        fates.len() == groups.len(),
        forall|lane: int| 0 <= lane < groups.len() ==> (#[trigger] groups[lane]).ready(),
        forall|lane: int|
            0 <= lane < groups.len() ==> answered(
                groups[lane],
                lane_items(drained, lanes, lane),
                #[trigger] fates[lane],
            ),
    ensures
        staged_in_lanes(drained, lanes, count, id) == rejoined_from_lanes(fates, count, id)
            + disposed_in_lanes(drained, lanes, fates, count, id),
        occurrences(outcome_ids(joined(fates.take(count))), id) == rejoined_from_lanes(
            fates,
            count,
            id,
        ),
    decreases count,
{
    if count > 0 {
        lemma_lanes_account(groups, drained, lanes, fates, count - 1, id);
        let lane = count - 1;
        assert(groups[lane].ready());
        assert(answered(groups[lane], lane_items(drained, lanes, lane), fates[lane]));
        lane_accounts_for_buffers(groups[lane], lane_items(drained, lanes, lane), fates[lane], id);
        assert(fates.take(count).drop_last() == fates.take(count - 1));
        assert(fates.take(count).last() == fates[lane]);
        lemma_outcome_ids_add(joined(fates.take(count - 1)), rejoined(fates[lane]));
        lemma_occurrences_add(
            outcome_ids(joined(fates.take(count - 1))),
            outcome_ids(rejoined(fates[lane])),
            id,
        );
    } else {
        assert(outcome_ids(joined(fates.take(count))) =~= Seq::<u64>::empty());
    }
}

/// Conservation through the lanes. Of the buffers that reach a group-by
/// operator in a poll cycle, each either leaves it under one of its results,
/// or is disposed of by one of its sub-pipelines, as often as it reached the
/// operator: never both, never neither.
pub proof fn lanes_conserve_buffers<T: Packet, K, C: Fn(&T) -> K, G: Group<Item = T>>(
    classifier: C,
    keys: Seq<K>,
    groups: Seq<G>,
    drained: Seq<Result<T, PacketError>>,
    lanes: Seq<int>,
    fates: Seq<Seq<Option<Result<T, PacketError>>>>,
    id: u64,
)
    requires
        lanes.len() == drained.len(),
        forall|i: int|
            0 <= i < drained.len() ==> classified(classifier, keys, #[trigger] drained[i], lanes[i]),
        groups.len() == keys.len(),
        fates.len() == keys.len(),
        forall|lane: int| 0 <= lane < groups.len() ==> (#[trigger] groups[lane]).ready(),
        forall|lane: int|
            0 <= lane < groups.len() ==> answered(
                groups[lane],
                lane_items(drained, lanes, lane),
                #[trigger] fates[lane],
            ),
    ensures
        occurrences(outcome_ids(drained), id) == occurrences(
            outcome_ids(bypassed(drained, lanes, keys.len() as int) + joined(fates)),
            id,
        ) + disposed_in_lanes(drained, lanes, fates, keys.len() as int, id),
{
    let count = keys.len() as int;
    assert forall|i: int| 0 <= i < lanes.len() implies 0 <= #[trigger] lanes[i] by {
        assert(classified(classifier, keys, drained[i], lanes[i]));
        if let Ok(item) = drained[i] {
            let key = choose|key: K|
                #[trigger] classifier.ensures((&item,), key) && lanes[i] == lane_of(keys, key);
            lemma_lane_in_range(keys, key);
        }
    }
    assert forall|i: int| 0 <= i < drained.len() && (#[trigger] drained[i]) is Err implies lanes[i]
        >= count by {
        assert(classified(classifier, keys, drained[i], lanes[i]));
    }
    lemma_lanes_part(drained, lanes, count, id);
    lemma_lanes_account(groups, drained, lanes, fates, count, id);
    assert(fates.take(count) == fates);
    lemma_outcome_ids_add(bypassed(drained, lanes, count), joined(fates));
    lemma_occurrences_add(
        outcome_ids(bypassed(drained, lanes, count)),
        outcome_ids(joined(fates)),
        id,
    );
}

/// Cycle isolation. What a batch holds after `receive` has entered the
/// pipeline in that call: every packet of the new poll cycle stands in the
/// history behind all that entered before, so none is left over from a poll
/// cycle before.
pub proof fn cycle_is_fresh<B: Stage>(before: B, after: B, k: int)
    requires
        after.history() == before.history() + after.cycle(),
        after.pending() == after.cycle(),
        0 <= k < after.pending().len(),
    ensures
        after.history().len() == before.history().len() + after.cycle().len(),
        after.pending()[k] == after.history()[before.history().len() + k],
{
}

} // verus!
