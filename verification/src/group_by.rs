//! The group-by operator: dispatch by key to sub-pipelines.

use vstd::prelude::*;
use vstd::std_specs::cmp::PartialEqSpec;
use std::collections::VecDeque;
use crate::batch::{Batch, Stage};
use crate::error::PacketError;
use crate::group::Group;
use crate::ids::{disposed_ids, occurrences};
use crate::packet::Packet;

verus! {

/// The lane of `key`: the index of the first of `keys` that equals it, or the
/// number of keys where none does.
pub open spec fn lane_of<K>(keys: Seq<K>, key: K) -> int
    decreases keys.len(),
{
    if keys.len() == 0 {
        0
    } else if keys[0] == key {
        0
    } else {
        1 + lane_of(keys.skip(1), key)
    }
}

/// Whether `lane` is where a group-by operator with the classifier
/// `classifier` and the keys `keys` sends the result `up` of the batch before
/// it: a packet goes to the lane of its key, and an error bypasses the
/// sub-pipelines, as a packet does whose key is none of `keys`.
pub open spec fn classified<T, K, C: Fn(&T) -> K>(
    classifier: C,
    keys: Seq<K>,
    up: Result<T, PacketError>,
    lane: int,
) -> bool {
    match up {
        Ok(item) => exists|key: K|
            #[trigger] classifier.ensures((&item,), key) && lane == lane_of(keys, key),
        Err(_) => lane == keys.len(),
    }
}

/// The packets among `drained` that go to the sub-pipeline of the lane
/// `lane`, in order.
pub open spec fn lane_items<T>(drained: Seq<Result<T, PacketError>>, lanes: Seq<int>, lane: int) -> Seq<
    T,
>
    decreases drained.len(),
{
    if drained.len() == 0 || lanes.len() != drained.len() {
        Seq::empty()
    } else {
        let rest = lane_items(drained.drop_last(), lanes.drop_last(), lane);
        match drained.last() {
            Ok(item) => if lanes.last() == lane {
                rest.push(item)
            } else {
                rest
            },
            Err(_) => rest,
        }
    }
}

/// The results among `drained` that bypass the sub-pipelines, in order: the
/// errors, and the packets whose key is bound to none.
pub open spec fn bypassed<T>(drained: Seq<Result<T, PacketError>>, lanes: Seq<int>, count: int) -> Seq<
    Result<T, PacketError>,
>
    decreases drained.len(),
{
    if drained.len() == 0 || lanes.len() != drained.len() {
        Seq::empty()
    } else {
        let rest = bypassed(drained.drop_last(), lanes.drop_last(), count);
        if drained.last() is Err || lanes.last() >= count {
            rest.push(drained.last())
        } else {
            rest
        }
    }
}

/// What entered for the results among `drained` that bypass the
/// sub-pipelines, in order, where `entered[i]` is what `drained[i]` was given
/// for.
pub open spec fn bypass_inputs<I, T>(
    entered: Seq<I>,
    drained: Seq<Result<T, PacketError>>,
    lanes: Seq<int>,
    count: int,
) -> Seq<I>
    decreases drained.len(),
{
    if drained.len() == 0 || lanes.len() != drained.len() || entered.len() != drained.len() {
        Seq::empty()
    } else {
        let rest = bypass_inputs(
            entered.drop_last(),
            drained.drop_last(),
            lanes.drop_last(),
            count,
        );
        if drained.last() is Err || lanes.last() >= count {
            rest.push(entered.last())
        } else {
            rest
        }
    }
}

/// What entered for the packets among `drained` that go to the sub-pipeline
/// of the lane `lane`, in order, where `entered[i]` is what `drained[i]` was
/// given for.
pub open spec fn lane_inputs<I, T>(
    entered: Seq<I>,
    drained: Seq<Result<T, PacketError>>,
    lanes: Seq<int>,
    lane: int,
) -> Seq<I>
    decreases drained.len(),
{
    if drained.len() == 0 || lanes.len() != drained.len() || entered.len() != drained.len() {
        Seq::empty()
    } else {
        let rest = lane_inputs(entered.drop_last(), drained.drop_last(), lanes.drop_last(), lane);
        if drained.last() is Ok && lanes.last() == lane {
            rest.push(entered.last())
        } else {
            rest
        }
    }
}

/// Those of `inputs` whose fate is a result that rejoins the output, in
/// order, where `fates[i]` is the fate of the packet that `inputs[i]` became.
pub open spec fn kept<I, T>(inputs: Seq<I>, fates: Seq<Option<Result<T, PacketError>>>) -> Seq<I>
    decreases fates.len(),
{
    if fates.len() == 0 || inputs.len() != fates.len() {
        Seq::empty()
    } else {
        match fates[0] {
            Some(_) => seq![inputs[0]] + kept(inputs.skip(1), fates.skip(1)),
            None => kept(inputs.skip(1), fates.skip(1)),
        }
    }
}

/// What entered for all that the sub-pipelines hand back, lane after lane.
pub open spec fn joined_inputs<I, T>(
    entered: Seq<I>,
    drained: Seq<Result<T, PacketError>>,
    lanes: Seq<int>,
    fates: Seq<Seq<Option<Result<T, PacketError>>>>,
) -> Seq<I>
    decreases fates.len(),
{
    if fates.len() == 0 {
        Seq::empty()
    } else {
        joined_inputs(entered, drained, lanes, fates.drop_last()) + kept(
            lane_inputs(entered, drained, lanes, fates.len() - 1),
            fates.last(),
        )
    }
}

/// The results among `fates` that rejoin the output, in order.
pub open spec fn rejoined<T>(fates: Seq<Option<Result<T, PacketError>>>) -> Seq<
    Result<T, PacketError>,
>
    decreases fates.len(),
{
    if fates.len() == 0 {
        Seq::empty()
    } else {
        match fates[0] {
            Some(outcome) => seq![outcome] + rejoined(fates.skip(1)),
            None => rejoined(fates.skip(1)),
        }
    }
}

/// What the sub-pipelines hand back in all, lane after lane.
pub open spec fn joined<T>(fates: Seq<Seq<Option<Result<T, PacketError>>>>) -> Seq<
    Result<T, PacketError>,
>
    decreases fates.len(),
{
    if fates.len() == 0 {
        Seq::empty()
    } else {
        joined(fates.drop_last()) + rejoined(fates.last())
    }
}

/// Whether a group-by operator may turn the result `up` of the batch before it
/// into `outcome`: an error passes unchanged without the classifier seeing it,
/// a packet whose key is bound to a sub-pipeline becomes what that
/// sub-pipeline hands back for it, and any other packet passes unchanged.
pub open spec fn grouped<T: Packet, K, C: Fn(&T) -> K, G: Group<Item = T>>(
    classifier: C,
    keys: Seq<K>,
    groups: Seq<G>,
    up: Result<T, PacketError>,
    outcome: Result<T, PacketError>,
) -> bool {
    match up {
        Ok(item) => exists|key: K|
            #[trigger] classifier.ensures((&item,), key) && routed(
                keys,
                groups,
                key,
                item,
                outcome,
            ),
        Err(error) => outcome == Err::<T, PacketError>(error),
    }
}

/// Whether `outcome` may come out of a group-by operator for the packet `item`
/// with the key `key`.
pub open spec fn routed<T: Packet, K, G: Group<Item = T>>(
    keys: Seq<K>,
    groups: Seq<G>,
    key: K,
    item: T,
    outcome: Result<T, PacketError>,
) -> bool {
    let lane = lane_of(keys, key);
    if 0 <= lane < groups.len() {
        groups[lane].handles(item, Some(outcome))
    } else {
        outcome == Ok::<T, PacketError>(item)
    }
}

/// The lane of `key` among `keys`.
pub fn find_lane<K: PartialEq>(keys: &Vec<K>, key: &K) -> (lane: usize)
    requires
        K::obeys_eq_spec(),
        forall|a: K, b: K| #[trigger] a.eq_spec(&b) == (a == b),
    ensures
        lane == lane_of(keys@, *key),
        lane <= keys@.len(),
{
    let mut lane: usize = 0;
    assert(keys@.skip(0) == keys@);
    while lane < keys.len()
        invariant
            K::obeys_eq_spec(),
            forall|a: K, b: K| #[trigger] a.eq_spec(&b) == (a == b),
            lane <= keys@.len(),
            lane_of(keys@, *key) == lane + lane_of(keys@.skip(lane as int), *key),
        decreases keys@.len() - lane,
    {
        if keys[lane] == *key {
            return lane;
        }
        assert(keys@.skip(lane as int).skip(1) == keys@.skip(lane + 1));
        lane = lane + 1;
    }
    lane
}


/// Parts a list of bindings into the keys and what they are bound to, in
/// order.
pub fn unzip<K, G>(bindings: Vec<(K, G)>) -> (parts: (Vec<K>, Vec<G>))
    ensures
        parts.0@.len() == bindings@.len(),
        parts.1@.len() == bindings@.len(),
        forall|i: int| 0 <= i < bindings@.len() ==> (#[trigger] parts.0@[i]) == bindings@[i].0,
        forall|i: int| 0 <= i < bindings@.len() ==> (#[trigger] parts.1@[i]) == bindings@[i].1,
{
    let mut bindings = bindings;
    let ghost all = bindings@;
    let mut keys: Vec<K> = Vec::new();
    let mut groups: Vec<G> = Vec::new();
    loop
        invariant
            bindings@.len() <= all.len(),
            bindings@ == all.take(bindings@.len() as int),
            keys@.len() == all.len() - bindings@.len(),
            groups@.len() == all.len() - bindings@.len(),
            forall|i: int|
                0 <= i < keys@.len() ==> (#[trigger] keys@[i]) == all[bindings@.len() + i].0,
            forall|i: int|
                0 <= i < groups@.len() ==> (#[trigger] groups@[i]) == all[bindings@.len() + i].1,
        ensures
            bindings@.len() == 0,
            keys@.len() == all.len(),
            groups@.len() == all.len(),
            forall|i: int| 0 <= i < all.len() ==> (#[trigger] keys@[i]) == all[i].0,
            forall|i: int| 0 <= i < all.len() ==> (#[trigger] groups@[i]) == all[i].1,
        decreases bindings@.len(),
    {
        match bindings.pop() {
            None => {
                break ;
            },
            Some((key, group)) => {
                keys.insert(0, key);
                groups.insert(0, group);
            },
        }
    }
    (keys, groups)
}

/// Whether `outcome` is a result that a group-by operator made of `source`,
/// `classifier`, `keys` and `groups` may give for `input`.
pub open spec fn gives<B: Stage, K, C: Fn(&B::Item) -> K, G: Group<Item = B::Item>>(
    source: B,
    classifier: C,
    keys: Seq<K>,
    groups: Seq<G>,
    input: B::Input,
    outcome: Result<B::Item, PacketError>,
) -> bool {
    exists|up: Result<B::Item, PacketError>|
        #[trigger] source.yields(input, up) && grouped(classifier, keys, groups, up, outcome)
}

/// Whether `item` is what the batch `source` gave for `input`, and `lane` the
/// lane of its key.
pub open spec fn staged_as<B: Stage, K, C: Fn(&B::Item) -> K>(
    source: B,
    classifier: C,
    keys: Seq<K>,
    lane: int,
    input: B::Input,
    item: B::Item,
) -> bool {
    &&& source.yields(input, Ok(item))
    &&& exists|key: K| #[trigger] classifier.ensures((&item,), key) && lane_of(keys, key) == lane
}

/// Whether the sub-pipeline that was `before` took `items` and made `fates` of
/// them, to become `after`.
pub open spec fn served<G: Group>(
    before: G,
    after: G,
    items: Seq<G::Item>,
    fates: Seq<Option<Result<G::Item, PacketError>>>,
) -> bool {
    &&& after.dispatched() == before.dispatched() + items
    &&& fates.len() == items.len()
    &&& forall|k: int| 0 <= k < items.len() ==> after.handles(items[k], #[trigger] fates[k])
    &&& forall|id: u64|
        #[trigger] after.disposed(id) == before.disposed(id) + occurrences(
            disposed_ids(items, fates),
            id,
        )
}

/// Whether `items` are the packets that `group` was given last, and `fates`
/// what it made of them.
pub open spec fn answered<G: Group>(
    group: G,
    items: Seq<G::Item>,
    fates: Seq<Option<Result<G::Item, PacketError>>>,
) -> bool {
    &&& fates.len() == items.len()
    &&& forall|k: int| 0 <= k < items.len() ==> group.handles(items[k], #[trigger] fates[k])
    &&& group.dispatched().len() >= items.len()
    &&& group.dispatched().skip(group.dispatched().len() - items.len()) == items
}

/// Sub-pipelines that were given nothing hand nothing back.
pub proof fn lemma_joined_nothing<T>(fates: Seq<Seq<Option<Result<T, PacketError>>>>)
    requires
        forall|lane: int| 0 <= lane < fates.len() ==> (#[trigger] fates[lane]).len() == 0,
    ensures
        joined(fates) == Seq::<Result<T, PacketError>>::empty(),
    decreases fates.len(),
{
    if fates.len() > 0 {
        lemma_joined_nothing(fates.drop_last());
        assert(joined(fates) =~= Seq::<Result<T, PacketError>>::empty());
    }
}

/// Nothing entered for what sub-pipelines hand back that were given nothing.
pub proof fn lemma_joined_inputs_nothing<I, T>(
    entered: Seq<I>,
    fates: Seq<Seq<Option<Result<T, PacketError>>>>,
)
    requires
        forall|lane: int| 0 <= lane < fates.len() ==> (#[trigger] fates[lane]).len() == 0,
    ensures
        joined_inputs(
            entered,
            Seq::<Result<T, PacketError>>::empty(),
            Seq::<int>::empty(),
            fates,
        ) == Seq::<I>::empty(),
    decreases fates.len(),
{
    if fates.len() > 0 {
        lemma_joined_inputs_nothing::<I, T>(entered, fates.drop_last());
        assert(joined_inputs(
            entered,
            Seq::<Result<T, PacketError>>::empty(),
            Seq::<int>::empty(),
            fates,
        ) =~= Seq::<I>::empty());
    }
}

/// Sub-pipelines that handle packets alike give rise to the same results.
pub proof fn lemma_gives_same<B: Stage, K, C: Fn(&B::Item) -> K, G: Group<Item = B::Item>>(
    first: B,
    second: B,
    classifier: C,
    keys: Seq<K>,
    before: Seq<G>,
    after: Seq<G>,
)
    requires
        forall|input: B::Input, up: Result<B::Item, PacketError>|
            #![trigger first.yields(input, up)]
            #![trigger second.yields(input, up)]
            first.yields(input, up) == second.yields(input, up),
        before.len() == after.len(),
        forall|lane: int, item: B::Item, fate: Option<Result<B::Item, PacketError>>|
            #![trigger before[lane].handles(item, fate)]
            #![trigger after[lane].handles(item, fate)]
            0 <= lane < before.len() ==> before[lane].handles(item, fate) == after[lane].handles(
                item,
                fate,
            ),
    ensures
        forall|input: B::Input, outcome: Result<B::Item, PacketError>|
            #![trigger gives(first, classifier, keys, before, input, outcome)]
            #![trigger gives(second, classifier, keys, after, input, outcome)]
            gives(first, classifier, keys, before, input, outcome) == gives(
                second,
                classifier,
                keys,
                after,
                input,
                outcome,
            ),
{
    assert forall|up: Result<B::Item, PacketError>, outcome: Result<B::Item, PacketError>|
        #![trigger grouped(classifier, keys, before, up, outcome)]
        #![trigger grouped(classifier, keys, after, up, outcome)]
        grouped(classifier, keys, before, up, outcome) == grouped(
            classifier,
            keys,
            after,
            up,
            outcome,
        ) by {
        if let Ok(item) = up {
            assert forall|key: K|
                routed(keys, before, key, item, outcome) == routed(
                    keys,
                    after,
                    key,
                    item,
                    outcome,
                ) by {
                let lane = lane_of(keys, key);
                if 0 <= lane < before.len() {
                    assert(before[lane].handles(item, Some(outcome)) == after[lane].handles(
                        item,
                        Some(outcome),
                    ));
                }
            }
        }
    }
}

/// A batch that hands each packet to the sub-pipeline of its key, and yields
/// what bypasses the sub-pipelines and what they hand back.
///
/// All the work of a poll cycle is done in `receive`: the batch before the
/// operator is emptied, every packet is staged for the sub-pipeline whose key
/// the classifier gives it, and the sub-pipelines are run one after the
/// other. `next` then yields first what bypassed the sub-pipelines, in order,
/// and then what each of them handed back, lane after lane.
#[verifier::reject_recursive_types(K)]
pub struct GroupByBatch<B: Stage, K: PartialEq, C: Fn(&B::Item) -> K, G: Group<Item = B::Item>> {
    /// The batch before the operator.
    pub source: B,
    /// Gives each packet its key.
    pub classifier: C,
    /// The keys that are bound to a sub-pipeline.
    pub keys: Vec<K>,
    /// The sub-pipelines, each at the index of its key.
    pub groups: Vec<G>,
    /// The results of the poll cycle that `next` has not returned yet.
    pub output: VecDeque<Result<B::Item, PacketError>>,
    /// What entered the pipeline for each result of the poll cycle.
    pub inputs: Ghost<Seq<B::Input>>,
    /// What entered the pipeline for each result of all poll cycles.
    pub past: Ghost<Seq<B::Input>>,
    /// What the batch before the operator gave in the poll cycle.
    pub drained: Ghost<Seq<Result<B::Item, PacketError>>>,
    /// The lane of each of `drained`.
    pub lanes: Ghost<Seq<int>>,
    /// What each sub-pipeline made of the packets it was given in the poll
    /// cycle.
    pub fates: Ghost<Seq<Seq<Option<Result<B::Item, PacketError>>>>>,
    /// All the results of the poll cycle, those that `next` has returned and
    /// those that it has not.
    pub emitted: Ghost<Seq<Result<B::Item, PacketError>>>,
}

impl<B: Stage, K: PartialEq, C: Fn(&B::Item) -> K, G: Group<Item = B::Item>> GroupByBatch<
    B,
    K,
    C,
    G,
> {
    /// Whether keys can be compared, the classifier takes every packet, and
    /// every key has its sub-pipeline, which is ready.
    pub open spec fn configured(&self) -> bool {
        &&& K::obeys_eq_spec()
        &&& forall|a: K, b: K| #[trigger] a.eq_spec(&b) == (a == b)
        &&& forall|item: B::Item| self.classifier.requires((&item,))
        &&& self.keys@.len() == self.groups@.len()
        &&& forall|lane: int|
            0 <= lane < self.groups@.len() ==> (#[trigger] self.groups@[lane]).ready()
    }

    /// Whether the operator holds what its last `receive` did with the poll
    /// cycle of the batch before it: the results that batch gave, each for
    /// what entered it; the lane of each; what each sub-pipeline was given,
    /// and what it made of that; and that the results of the operator are
    /// those that bypassed the sub-pipelines, then what the sub-pipelines
    /// handed back, lane after lane, each for what entered the pipeline for
    /// it.
    pub open spec fn retained(&self) -> bool {
        let count = self.groups@.len() as int;
        &&& self.drained@.len() == self.source.cycle().len()
        &&& self.lanes@.len() == self.source.cycle().len()
        &&& forall|i: int|
            0 <= i < self.drained@.len() ==> self.source.yields(
                self.source.cycle()[i],
                #[trigger] self.drained@[i],
            )
        &&& forall|i: int|
            0 <= i < self.drained@.len() ==> classified(
                self.classifier,
                self.keys@,
                #[trigger] self.drained@[i],
                self.lanes@[i],
            )
        &&& self.fates@.len() == count
        &&& forall|lane: int|
            0 <= lane < count ==> answered(
                self.groups@[lane],
                lane_items(self.drained@, self.lanes@, lane),
                #[trigger] self.fates@[lane],
            )
        &&& self.emitted@ == bypassed(self.drained@, self.lanes@, count) + joined(self.fates@)
        &&& self.inputs@ == bypass_inputs(self.source.cycle(), self.drained@, self.lanes@, count)
            + joined_inputs(self.source.cycle(), self.drained@, self.lanes@, self.fates@)
        &&& self.inputs@.len() == self.emitted@.len()
        &&& self.output@.len() <= self.emitted@.len()
        &&& self.output@ == self.emitted@.skip(self.emitted@.len() - self.output@.len())
    }

    /// Puts a group-by operator behind `source`, with `groups[i]` bound to
    /// `keys[i]`. The batch before it must not have begun a poll cycle: the
    /// operator does its work when a poll cycle begins.
    pub fn new(source: B, classifier: C, keys: Vec<K>, groups: Vec<G>) -> (batch: Self)
        requires
            source.inv(),
            source.cycle().len() == 0,
            source.pending().len() == 0,
            K::obeys_eq_spec(),
            forall|a: K, b: K| #[trigger] a.eq_spec(&b) == (a == b),
            forall|item: B::Item| classifier.requires((&item,)),
            keys@.len() == groups@.len(),
            forall|lane: int| 0 <= lane < groups@.len() ==> (#[trigger] groups@[lane]).ready(),
        ensures
            batch.inv(),
            batch.source == source,
            batch.classifier == classifier,
            batch.keys == keys,
            batch.groups == groups,
            batch.history() == Seq::<B::Input>::empty(),
            batch.cycle() == Seq::<B::Input>::empty(),
            batch.pending() == Seq::<B::Input>::empty(),
    {
        let ghost fates = Seq::new(
            groups@.len(),
            |lane: int| Seq::<Option<Result<B::Item, PacketError>>>::empty(),
        );
        proof {
            lemma_joined_nothing(fates);
            lemma_joined_inputs_nothing::<B::Input, B::Item>(source.cycle(), fates);
            assert forall|lane: int| 0 <= lane < groups@.len() implies answered(
                groups@[lane],
                lane_items(
                    Seq::<Result<B::Item, PacketError>>::empty(),
                    Seq::<int>::empty(),
                    lane,
                ),
                #[trigger] fates[lane],
            ) by {
                let told = groups@[lane].dispatched();
                assert(told.skip(told.len() - 0) =~= Seq::<B::Item>::empty());
            }
        }
        let batch = GroupByBatch {
            source,
            classifier,
            keys,
            groups,
            output: VecDeque::new(),
            inputs: Ghost(Seq::empty()),
            past: Ghost(Seq::empty()),
            drained: Ghost(Seq::empty()),
            lanes: Ghost(Seq::empty()),
            fates: Ghost(fates),
            emitted: Ghost(Seq::empty()),
        };
        proof {
            assert(batch.emitted@ =~= bypassed(
                batch.drained@,
                batch.lanes@,
                batch.groups@.len() as int,
            ) + joined(batch.fates@));
            assert(batch.output@ =~= batch.emitted@.skip(0));
            assert(batch.inputs@ =~= bypass_inputs(
                batch.source.cycle(),
                batch.drained@,
                batch.lanes@,
                batch.groups@.len() as int,
            ) + joined_inputs(
                batch.source.cycle(),
                batch.drained@,
                batch.lanes@,
                batch.fates@,
            ));
            assert(batch.inputs@.skip(0) =~= batch.inputs@);
        }
        batch
    }
}

impl<B: Stage, K: PartialEq, C: Fn(&B::Item) -> K, G: Group<Item = B::Item>> GroupByBatch<
    B,
    K,
    C,
    G,
> {
    /// The model of a group-by operator, stated over its fields.
    pub proof fn model(&self)
        ensures
            self.inv() == (self.source.inv() && self.source.pending().len() == 0
                && self.configured() && self.retained() && self.output@.len()
                <= self.inputs@.len() && forall|k: int|
                0 <= k < self.output@.len() ==> gives(
                    self.source,
                    self.classifier,
                    self.keys@,
                    self.groups@,
                    self.inputs@[self.inputs@.len() - self.output@.len() + k],
                    #[trigger] self.output@[k],
                )),
            self.history() == self.past@,
            self.cycle() == self.inputs@,
            self.pending() == self.inputs@.skip(self.inputs@.len() - self.output@.len()),
            self.setup() == (
                self.source.setup(),
                self.classifier,
                self.keys@,
                self.groups@.len(),
            ),
            self.entered() == self.source.entered(),
            self.upcoming() == self.source.upcoming(),
            forall|input: B::Input, outcome: Result<B::Item, PacketError>|
                #[trigger] self.yields(input, outcome) == gives(
                    self.source,
                    self.classifier,
                    self.keys@,
                    self.groups@,
                    input,
                    outcome,
                ),
    {
    }
}

impl<B: Stage, K: PartialEq, C: Fn(&B::Item) -> K, G: Group<Item = B::Item>> Stage for GroupByBatch<
    B,
    K,
    C,
    G,
> {
    type Input = B::Input;

    type Item = B::Item;

    type Setup = (B::Setup, C, Seq<K>, nat);

    open spec fn setup(&self) -> (B::Setup, C, Seq<K>, nat) {
        (self.source.setup(), self.classifier, self.keys@, self.groups@.len())
    }

    open spec fn inv(&self) -> bool {
        &&& self.source.inv()
        &&& self.source.pending().len() == 0
        &&& self.configured()
        &&& self.retained()
        &&& self.output@.len() <= self.inputs@.len()
        &&& forall|k: int|
            0 <= k < self.output@.len() ==> gives(
                self.source,
                self.classifier,
                self.keys@,
                self.groups@,
                self.inputs@[self.inputs@.len() - self.output@.len() + k],
                #[trigger] self.output@[k],
            )
    }

    open spec fn history(&self) -> Seq<B::Input> {
        self.past@
    }

    open spec fn cycle(&self) -> Seq<B::Input> {
        self.inputs@
    }

    open spec fn pending(&self) -> Seq<B::Input> {
        self.inputs@.skip(self.inputs@.len() - self.output@.len())
    }

    open spec fn entered(&self) -> Seq<B::Input> {
        self.source.entered()
    }

    open spec fn upcoming(&self) -> Option<Seq<B::Input>> {
        self.source.upcoming()
    }

    open spec fn yields(&self, input: B::Input, outcome: Result<B::Item, PacketError>) -> bool {
        gives(self.source, self.classifier, self.keys@, self.groups@, input, outcome)
    }

    proof fn yields_keeps_buffer(&self, input: B::Input, outcome: Result<B::Item, PacketError>) {
        let up = choose|up: Result<B::Item, PacketError>|
            #[trigger] self.source.yields(input, up) && grouped(
                self.classifier,
                self.keys@,
                self.groups@,
                up,
                outcome,
            );
        self.source.yields_keeps_buffer(input, up);
        match up {
            Ok(item) => {
                let key = choose|key: K|
                    #[trigger] self.classifier.ensures((&item,), key) && routed(
                        self.keys@,
                        self.groups@,
                        key,
                        item,
                        outcome,
                    );
                let lane = lane_of(self.keys@, key);
                if 0 <= lane < self.groups@.len() {
                    self.groups@[lane].handles_keeps_buffer(item, outcome);
                }
            },
            Err(_) => {},
        }
    }
}

impl<B: Batch, K: PartialEq, C: Fn(&B::Item) -> K, G: Group<Item = B::Item>> Batch for GroupByBatch<
    B,
    K,
    C,
    G,
> {
    fn next(&mut self) -> (res: Option<Result<B::Item, PacketError>>)
        ensures
            final(self).source == old(self).source,
            final(self).classifier == old(self).classifier,
            final(self).keys == old(self).keys,
            final(self).groups == old(self).groups,
            final(self).inputs == old(self).inputs,
            final(self).past == old(self).past,
            final(self).drained == old(self).drained,
            final(self).lanes == old(self).lanes,
            final(self).fates == old(self).fates,
            final(self).emitted == old(self).emitted,
            match res {
                Some(outcome) => old(self).output@.len() > 0 && outcome == old(self).output@[0]
                    && final(self).output@ == old(self).output@.skip(1),
                None => old(self).output@.len() == 0 && final(self).output@ == old(self).output@,
            },
    {
        match self.output.pop_front() {
            Some(outcome) => {
                proof {
                    let all = self.emitted@;
                    let left = old(self).output@.len();
                    assert(self.output@ =~= all.skip(all.len() - left).skip(1));
                    assert(self.output@ =~= all.skip(all.len() - self.output@.len()));
                    assert(self.pending() =~= old(self).pending().skip(1));
                    assert forall|k: int| 0 <= k < self.output@.len() implies gives(
                        self.source,
                        self.classifier,
                        self.keys@,
                        self.groups@,
                        self.inputs@[self.inputs@.len() - self.output@.len() + k],
                        #[trigger] self.output@[k],
                    ) by {
                        assert(self.output@[k] == old(self).output@[k + 1]);
                    }
                }
                Some(outcome)
            },
            None => None,
        }
    }

    fn receive(&mut self)
        ensures
            final(self).classifier == old(self).classifier,
            final(self).keys == old(self).keys,
            final(self).groups@.len() == old(self).groups@.len(),
            final(self).source.history() == old(self).source.history() + final(self).source.cycle(),
            old(self).source.upcoming() matches Some(group) ==> final(self).source.entered()
                == group,
            forall|input: B::Input, up: Result<B::Item, PacketError>|
                #![trigger final(self).source.yields(input, up)]
                #![trigger old(self).source.yields(input, up)]
                final(self).source.yields(input, up) == old(self).source.yields(input, up),
            forall|lane: int, item: B::Item, fate: Option<Result<B::Item, PacketError>>|
                #![trigger final(self).groups@[lane].handles(item, fate)]
                #![trigger old(self).groups@[lane].handles(item, fate)]
                0 <= lane < old(self).groups@.len() ==> final(self).groups@[lane].handles(
                    item,
                    fate,
                ) == old(self).groups@[lane].handles(item, fate),
            final(self).drained@.len() == final(self).source.cycle().len(),
            final(self).lanes@.len() == final(self).source.cycle().len(),
            forall|i: int|
                0 <= i < final(self).drained@.len() ==> final(self).source.yields(
                    final(self).source.cycle()[i],
                    #[trigger] final(self).drained@[i],
                ),
            forall|i: int|
                0 <= i < final(self).drained@.len() ==> classified(
                    final(self).classifier,
                    final(self).keys@,
                    #[trigger] final(self).drained@[i],
                    final(self).lanes@[i],
                ),
            final(self).fates@.len() == final(self).groups@.len(),
            forall|lane: int|
                0 <= lane < final(self).groups@.len() ==> served(
                    old(self).groups@[lane],
                    final(self).groups@[lane],
                    lane_items(final(self).drained@, final(self).lanes@, lane),
                    #[trigger] final(self).fates@[lane],
                ),
            final(self).output@ == bypassed(
                final(self).drained@,
                final(self).lanes@,
                final(self).groups@.len() as int,
            ) + joined(final(self).fates@),
    {
        self.source.receive();
        let count = self.groups.len();
        let ghost group = self.source.cycle();
        let ghost source0 = self.source;
        let ghost groups0 = self.groups@;
        let mut staged: Vec<Vec<B::Item>> = Vec::new();
        while staged.len() < count
            invariant
                staged@.len() <= count,
                forall|lane: int|
                    0 <= lane < staged@.len() ==> (#[trigger] staged@[lane])@.len() == 0,
            decreases count - staged@.len(),
        {
            staged.push(Vec::new());
        }
        let ghost mut staged_inputs: Seq<Seq<B::Input>> = Seq::new(
            count as nat,
            |lane: int| Seq::empty(),
        );
        let mut output: VecDeque<Result<B::Item, PacketError>> = VecDeque::new();
        let ghost mut inputs: Seq<B::Input> = Seq::empty();
        let ghost mut drained: Seq<Result<B::Item, PacketError>> = Seq::empty();
        let ghost mut lanes: Seq<int> = Seq::empty();
        assert forall|lane: int| 0 <= lane < count implies (#[trigger] staged_inputs[lane])
            == lane_inputs(group.take(0), drained, lanes, lane) by {
            assert(staged_inputs[lane] =~= Seq::<B::Input>::empty());
        }
        loop
            invariant
                old(self).configured(),
                self.source.inv(),
                self.classifier == old(self).classifier,
                self.keys == old(self).keys,
                self.groups == old(self).groups,
                self.past == old(self).past,
                groups0 == self.groups@,
                count == groups0.len(),
                group == self.source.cycle(),
                self.source.entered() == source0.entered(),
                self.source.setup() == source0.setup(),
                self.source.history() == old(self).source.history() + group,
                forall|input: B::Input, up: Result<B::Item, PacketError>|
                    #![trigger self.source.yields(input, up)]
                    #![trigger source0.yields(input, up)]
                    self.source.yields(input, up) == source0.yields(input, up),
                drained.len() == lanes.len(),
                drained.len() + self.source.pending().len() == group.len(),
                self.source.pending() == group.skip(drained.len() as int),
                forall|i: int|
                    0 <= i < drained.len() ==> source0.yields(group[i], #[trigger] drained[i]),
                forall|i: int|
                    0 <= i < drained.len() ==> classified(
                        self.classifier,
                        self.keys@,
                        #[trigger] drained[i],
                        lanes[i],
                    ),
                staged@.len() == count,
                staged_inputs.len() == count,
                forall|lane: int|
                    0 <= lane < count ==> (#[trigger] staged@[lane])@ == lane_items(
                        drained,
                        lanes,
                        lane,
                    ),
                forall|lane: int|
                    0 <= lane < count ==> (#[trigger] staged_inputs[lane]).len()
                        == staged@[lane]@.len(),
                forall|lane: int, k: int|
                    0 <= lane < count && 0 <= k < staged_inputs[lane].len() ==> staged_as(
                        source0,
                        self.classifier,
                        self.keys@,
                        lane,
                        #[trigger] staged_inputs[lane][k],
                        staged@[lane]@[k],
                    ),
                output@ == bypassed(drained, lanes, count as int),
                inputs == bypass_inputs(
                    group.take(drained.len() as int),
                    drained,
                    lanes,
                    count as int,
                ),
                forall|lane: int|
                    0 <= lane < count ==> (#[trigger] staged_inputs[lane]) == lane_inputs(
                        group.take(drained.len() as int),
                        drained,
                        lanes,
                        lane,
                    ),
                inputs.len() == output@.len(),
                forall|k: int|
                    0 <= k < output@.len() ==> gives(
                        source0,
                        self.classifier,
                        self.keys@,
                        groups0,
                        inputs[k],
                        #[trigger] output@[k],
                    ),
            ensures
                self.source.pending().len() == 0,
            decreases self.source.pending().len(),
        {
            let ghost input = group[drained.len() as int];
            let ghost drained0 = drained;
            let ghost lanes0 = lanes;
            match self.source.next() {
                None => {
                    break ;
                },
                Some(Err(error)) => {
                    output.push_back(Err(error));
                    proof {
                        drained = drained.push(Err(error));
                        lanes = lanes.push(count as int);
                        inputs = inputs.push(input);
                        assert(drained.drop_last() == drained0);
                        assert(lanes.drop_last() == lanes0);
                        assert(group.take(drained.len() as int).drop_last() == group.take(
                            drained0.len() as int,
                        ));
                        assert(group.take(drained.len() as int).last() == input);
                    }
                },
                Some(Ok(item)) => {
                    let key = (self.classifier)(&item);
                    let lane = find_lane(&self.keys, &key);
                    proof {
                        drained = drained.push(Ok(item));
                        lanes = lanes.push(lane as int);
                        assert(drained.drop_last() == drained0);
                        assert(lanes.drop_last() == lanes0);
                        assert(group.take(drained.len() as int).drop_last() == group.take(
                            drained0.len() as int,
                        ));
                        assert(group.take(drained.len() as int).last() == input);
                    }
                    if lane < count {
                        staged[lane].push(item);
                        proof {
                            staged_inputs = staged_inputs.update(
                                lane as int,
                                staged_inputs[lane as int].push(input),
                            );
                        }
                    } else {
                        output.push_back(Ok(item));
                        proof {
                            inputs = inputs.push(input);
                        }
                    }
                },
            }
        }
        let ghost source1 = self.source;
        assert(group.take(drained.len() as int) == group);
        let ghost mut fates: Seq<Seq<Option<Result<B::Item, PacketError>>>> = Seq::empty();
        let mut lane: usize = 0;
        while lane < count
            invariant
                self.source == source1,
                drained.len() == lanes.len(),
                drained.len() == group.len(),
                group == source1.cycle(),
                forall|input: B::Input, up: Result<B::Item, PacketError>|
                    #![trigger source1.yields(input, up)]
                    #![trigger source0.yields(input, up)]
                    source1.yields(input, up) == source0.yields(input, up),
                forall|i: int|
                    0 <= i < drained.len() ==> source0.yields(group[i], #[trigger] drained[i]),
                forall|i: int|
                    0 <= i < drained.len() ==> classified(
                        self.classifier,
                        self.keys@,
                        #[trigger] drained[i],
                        lanes[i],
                    ),
                self.classifier == old(self).classifier,
                self.keys == old(self).keys,
                self.past == old(self).past,
                self.groups@.len() == count,
                count == groups0.len(),
                lane <= count,
                forall|l: int| 0 <= l < count ==> (#[trigger] self.groups@[l]).ready(),
                forall|l: int| lane <= l < count ==> #[trigger] self.groups@[l] == groups0[l],
                forall|l: int, item: B::Item, fate: Option<Result<B::Item, PacketError>>|
                    #![trigger self.groups@[l].handles(item, fate)]
                    #![trigger groups0[l].handles(item, fate)]
                    0 <= l < count ==> self.groups@[l].handles(item, fate) == groups0[l].handles(
                        item,
                        fate,
                    ),
                fates.len() == lane,
                forall|l: int|
                    0 <= l < lane ==> served(
                        groups0[l],
                        self.groups@[l],
                        lane_items(drained, lanes, l),
                        #[trigger] fates[l],
                    ),
                staged@.len() == count - lane,
                forall|l: int|
                    0 <= l < staged@.len() ==> (#[trigger] staged@[l])@ == lane_items(
                        drained,
                        lanes,
                        lane + l,
                    ),
                staged_inputs.len() == count,
                forall|l: int|
                    0 <= l < count ==> (#[trigger] staged_inputs[l]).len() == lane_items(
                        drained,
                        lanes,
                        l,
                    ).len(),
                forall|l: int, k: int|
                    0 <= l < count && 0 <= k < staged_inputs[l].len() ==> staged_as(
                        source0,
                        self.classifier,
                        self.keys@,
                        l,
                        #[trigger] staged_inputs[l][k],
                        lane_items(drained, lanes, l)[k],
                    ),
                output@ == bypassed(drained, lanes, count as int) + joined(fates),
                inputs == bypass_inputs(group, drained, lanes, count as int) + joined_inputs(
                    group,
                    drained,
                    lanes,
                    fates,
                ),
                forall|l: int|
                    0 <= l < count ==> (#[trigger] staged_inputs[l]) == lane_inputs(
                        group,
                        drained,
                        lanes,
                        l,
                    ),
                inputs.len() == output@.len(),
                forall|k: int|
                    0 <= k < output@.len() ==> gives(
                        source0,
                        self.classifier,
                        self.keys@,
                        groups0,
                        inputs[k],
                        #[trigger] output@[k],
                    ),
            decreases count - lane,
        {
            let ghost fates0 = fates;
            let items = staged.remove(0);
            let ghost given = items@;
            let ghost given_inputs = staged_inputs[lane as int];
            assert(given == lane_items(drained, lanes, lane as int));
            let mut answers = self.groups[lane].dispatch(items);
            let ghost all = answers@;
            let mut rejoining: VecDeque<Result<B::Item, PacketError>> = VecDeque::new();
            let ghost mut rejoining_inputs: Seq<B::Input> = Seq::empty();
            assert(all.skip(all.len() as int) =~= Seq::empty());
            assert(given_inputs.skip(all.len() as int) =~= Seq::empty());
            loop
                invariant
                    0 <= lane < count,
                    count == groups0.len(),
                    all.len() == given.len(),
                    given_inputs.len() == given.len(),
                    forall|k: int|
                        0 <= k < given.len() ==> groups0[lane as int].handles(
                            given[k],
                            #[trigger] all[k],
                        ),
                    forall|k: int|
                        0 <= k < given.len() ==> staged_as(
                            source0,
                            self.classifier,
                            self.keys@,
                            lane as int,
                            #[trigger] given_inputs[k],
                            given[k],
                        ),
                    answers@.len() <= all.len(),
                    answers@ == all.take(answers@.len() as int),
                    rejoining@ == rejoined(all.skip(answers@.len() as int)),
                    rejoining_inputs == kept(
                        given_inputs.skip(answers@.len() as int),
                        all.skip(answers@.len() as int),
                    ),
                    rejoining_inputs.len() == rejoining@.len(),
                    forall|k: int|
                        0 <= k < rejoining@.len() ==> gives(
                            source0,
                            self.classifier,
                            self.keys@,
                            groups0,
                            rejoining_inputs[k],
                            #[trigger] rejoining@[k],
                        ),
                ensures
                    rejoining@ == rejoined(all),
                    rejoining_inputs == kept(given_inputs, all),
                    rejoining_inputs.len() == rejoining@.len(),
                    forall|k: int|
                        0 <= k < rejoining@.len() ==> gives(
                            source0,
                            self.classifier,
                            self.keys@,
                            groups0,
                            rejoining_inputs[k],
                            #[trigger] rejoining@[k],
                        ),
                decreases answers@.len(),
            {
                let ghost left = answers@.len() - 1;
                match answers.pop() {
                    None => {
                        assert(all.skip(0) == all);
                        assert(given_inputs.skip(0) == given_inputs);
                        break ;
                    },
                    Some(None) => {
                        assert(all.skip(left).skip(1) == all.skip(left + 1));
                        assert(all.skip(left)[0] == all[left]);
                        assert(given_inputs.skip(left).skip(1) == given_inputs.skip(left + 1));
                    },
                    Some(Some(outcome)) => {
                        rejoining.push_front(outcome);
                        proof {
                            assert(all.skip(left).skip(1) == all.skip(left + 1));
                            assert(all.skip(left)[0] == all[left]);
                            assert(given_inputs.skip(left).skip(1) == given_inputs.skip(left + 1));
                            assert(given_inputs.skip(left)[0] == given_inputs[left]);
                            rejoining_inputs = seq![given_inputs[left]] + rejoining_inputs;
                            let item = given[left];
                            let up: Result<B::Item, PacketError> = Ok(item);
                            assert(staged_as(
                                source0,
                                self.classifier,
                                self.keys@,
                                lane as int,
                                given_inputs[left],
                                item,
                            ));
                            assert(up->Ok_0 == item);
                            assert(exists|key: K|
                                #[trigger] self.classifier.ensures((&item,), key) && routed(
                                    self.keys@,
                                    groups0,
                                    key,
                                    item,
                                    outcome,
                                ));
                            assert(gives(
                                source0,
                                self.classifier,
                                self.keys@,
                                groups0,
                                given_inputs[left],
                                outcome,
                            ));
                        }
                    },
                }
            }
            output.append(&mut rejoining);
            proof {
                inputs = inputs + rejoining_inputs;
                fates = fates.push(all);
                assert(fates.drop_last() == fates0);
                assert(inputs =~= bypass_inputs(group, drained, lanes, count as int)
                    + joined_inputs(group, drained, lanes, fates));
            }
            lane = lane + 1;
        }
        self.output = output;
        self.inputs = Ghost(inputs);
        self.past = Ghost(self.past@ + inputs);
        self.drained = Ghost(drained);
        self.lanes = Ghost(lanes);
        self.fates = Ghost(fates);
        self.emitted = Ghost(output@);
        proof {
            assert forall|l: int| 0 <= l < count implies answered(
                self.groups@[l],
                lane_items(drained, lanes, l),
                #[trigger] fates[l],
            ) by {
                let items = lane_items(drained, lanes, l);
                let told = self.groups@[l].dispatched();
                assert(served(groups0[l], self.groups@[l], items, fates[l]));
                assert(told.skip(told.len() - items.len()) =~= items);
            }
            assert(self.emitted@.skip(0) =~= self.emitted@);
            lemma_gives_same(
                source0,
                self.source,
                self.classifier,
                self.keys@,
                groups0,
                self.groups@,
            );
            lemma_gives_same(
                old(self).source,
                self.source,
                self.classifier,
                self.keys@,
                groups0,
                self.groups@,
            );
            assert(self.inputs@.skip(0) =~= self.inputs@);
        }
    }
}

} // verus!
