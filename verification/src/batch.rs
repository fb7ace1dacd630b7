//! The contract every stage of a pipeline meets.

use vstd::prelude::*;
use vstd::std_specs::cmp::PartialEqSpec;
use core::marker::PhantomData;
use std::collections::VecDeque;
use crate::error::{Fault, PacketError};
use crate::filter_batch::FilterBatch;
use crate::group::Group;
use crate::group_by::{unzip, GroupByBatch};
use crate::map_batch::{keeps_buffer, MapBatch};
use crate::mbuf::Mbuf;
use crate::packet::Packet;
use crate::queue::PacketTx;
use crate::send_batch::SendBatch;

verus! {

/// The buffer that a result of a batch owns.
pub open spec fn outcome_buffer<T: Packet>(outcome: Result<T, PacketError>) -> Mbuf {
    match outcome {
        Ok(item) => item.buffer(),
        Err(error) => error.buffer(),
    }
}

/// A stage of a pipeline, as its contracts see it.
///
/// The model of a stage is what entered the pipeline at its head in the
/// current poll cycle; the packets among them that the stage gives a result
/// for, in the order of the results, and the part of these that `next` has not
/// answered for yet; and a relation between what entered and the results that
/// the pipeline may give for it. Behind heads, filters and maps every packet
/// that entered gets its result, in the order of entering. A group-by stage
/// changes the order, and gives no result for what its sub-pipelines dispose
/// of.
pub trait Stage: Sized {
    /// What enters the pipeline at its head.
    type Input: Packet;

    /// The packet type.
    type Item: Packet;

    /// What a pipeline is set up with when it is built, and keeps.
    type Setup;

    /// Whether the batch is well formed.
    spec fn inv(&self) -> bool;

    /// What the pipeline was set up with when it was built: its predicates,
    /// transforms, classifiers and keys. No poll cycle changes it.
    spec fn setup(&self) -> Self::Setup;

    /// What entered the pipeline at its head in the current poll cycle, in
    /// order.
    spec fn entered(&self) -> Seq<Self::Input>;

    /// What enters the pipeline at its head when the next poll cycle begins,
    /// where the batch as it stands tells that, and `None` where it does not.
    spec fn upcoming(&self) -> Option<Seq<Self::Input>>;

    /// The packets, as they entered, that the stage gives a result for in the
    /// current poll cycle, in the order of the results.
    spec fn cycle(&self) -> Seq<Self::Input>;

    /// The part of `cycle` for which `next` has not returned a result yet, in
    /// order.
    spec fn pending(&self) -> Seq<Self::Input>;

    /// What `cycle` was in all poll cycles so far, the current one included,
    /// one after the other and oldest first.
    spec fn history(&self) -> Seq<Self::Input>;

    /// Whether `outcome` is a result this pipeline may give for `input`.
    spec fn yields(&self, input: Self::Input, outcome: Result<Self::Item, PacketError>) -> bool;

    /// Whatever a pipeline makes of a packet, the result owns the buffer that
    /// entered.
    proof fn yields_keeps_buffer(
        &self,
        input: Self::Input,
        outcome: Result<Self::Item, PacketError>,
    )
        requires
            self.inv(),
            self.yields(input, outcome),
        ensures
            outcome_buffer(outcome).id() == input.buffer().id(),
    ;
}

/// Common behavior for a batch of packets.
///
/// A batch is refilled once per poll cycle by `receive` and then emptied by
/// calls of `next`.
pub trait Batch: Stage {
    /// Returns the next packet in the batch, or `None` once the poll cycle is
    /// exhausted.
    fn next(&mut self) -> (res: Option<Result<Self::Item, PacketError>>)
        requires
            old(self).inv(),
        ensures
            final(self).inv(),
            final(self).setup() == old(self).setup(),
            final(self).history() == old(self).history(),
            final(self).cycle() == old(self).cycle(),
            final(self).entered() == old(self).entered(),
            final(self).upcoming() == old(self).upcoming(),
            forall|input: Self::Input, outcome: Result<Self::Item, PacketError>|
                #![trigger final(self).yields(input, outcome)]
                #![trigger old(self).yields(input, outcome)]
                final(self).yields(input, outcome) == old(self).yields(input, outcome),
            match res {
                Some(outcome) => {
                    &&& old(self).pending().len() > 0
                    &&& old(self).yields(old(self).pending()[0], outcome)
                    &&& final(self).pending() == old(self).pending().skip(1)
                },
                None => {
                    &&& old(self).pending().len() == 0
                    &&& final(self).pending() == old(self).pending()
                },
            },
    ;

    /// Receives a new batch. The poll cycle before it must be exhausted.
    fn receive(&mut self)
        requires
            old(self).inv(),
            old(self).pending().len() == 0,
        ensures
            final(self).inv(),
            final(self).setup() == old(self).setup(),
            final(self).history() == old(self).history() + final(self).cycle(),
            final(self).pending() == final(self).cycle(),
            old(self).upcoming() matches Some(group) ==> final(self).entered() == group,
            forall|input: Self::Input, outcome: Result<Self::Item, PacketError>|
                #![trigger final(self).yields(input, outcome)]
                #![trigger old(self).yields(input, outcome)]
                final(self).yields(input, outcome) == old(self).yields(input, outcome),
    ;

    /// Appends a filter operator to the end of the pipeline. What the new
    /// batch is made of says what it does, as `FilterBatch::model` states.
    fn filter<P: Fn(&Self::Item) -> bool>(self, predicate: P) -> (batch: FilterBatch<Self, P>)
        requires
            self.inv(),
            forall|item: Self::Item| predicate.requires((&item,)),
        ensures
            batch.inv(),
            batch.source == self,
            batch.predicate == predicate,
    {
        FilterBatch { source: self, predicate }
    }

    /// Appends a map operator to the end of the pipeline. The transform must
    /// hand back the buffer of the packet it is given, under the new packet or
    /// with its failure. What the new batch is made of says what it does, as
    /// `MapBatch::model` states.
    fn map<T: Packet, M: Fn(Self::Item) -> Result<T, Fault>>(self, map: M) -> (batch: MapBatch<
        Self,
        T,
        M,
    >)
        requires
            self.inv(),
            forall|item: Self::Item| map.requires((item,)),
            forall|item: Self::Item, result: Result<T, Fault>|
                map.ensures((item,), result) ==> keeps_buffer(item, result),
        ensures
            batch.inv(),
            batch.source == self,
            batch.map == map,
    {
        MapBatch { source: self, map, marker: PhantomData }
    }

    /// Appends a group-by operator to the end of the pipeline: every packet
    /// goes to the sub-pipeline that `bindings` binds to the key that
    /// `classifier` gives it, and bypasses the sub-pipelines where its key is
    /// bound to none. The batch must not have begun a poll cycle: the operator
    /// does its work when a poll cycle begins. What the new batch is made of
    /// says what it does, as `GroupByBatch::model` states.
    fn group_by<K: PartialEq, C: Fn(&Self::Item) -> K, G: Group<Item = Self::Item>>(
        self,
        classifier: C,
        bindings: Vec<(K, G)>,
    ) -> (batch: GroupByBatch<Self, K, C, G>)
        requires
            self.inv(),
            self.cycle().len() == 0,
            self.pending().len() == 0,
            K::obeys_eq_spec(),
            forall|a: K, b: K| #[trigger] a.eq_spec(&b) == (a == b),
            forall|item: Self::Item| classifier.requires((&item,)),
            forall|i: int| 0 <= i < bindings@.len() ==> (#[trigger] bindings@[i]).1.ready(),
        ensures
            batch.inv(),
            batch.source == self,
            batch.classifier == classifier,
            batch.keys@.len() == bindings@.len(),
            batch.groups@.len() == bindings@.len(),
            forall|i: int|
                0 <= i < bindings@.len() ==> (#[trigger] batch.keys@[i]) == bindings@[i].0,
            forall|i: int|
                0 <= i < bindings@.len() ==> (#[trigger] batch.groups@[i]) == bindings@[i].1,
            batch.output@.len() == 0,
            batch.inputs@.len() == 0,
            batch.past@.len() == 0,
    {
        let (keys, groups) = unzip(bindings);
        GroupByBatch::new(self, classifier, keys, groups)
    }

    /// Appends a send operator to the end of the pipeline.
    ///
    /// Send marks the end of the pipeline. No more operators can be
    /// appended after send.
    fn send<Tx: PacketTx>(self, port: Tx) -> (batch: SendBatch<Self, Tx>)
        requires
            self.inv(),
            port.inv(),
        ensures
            batch.inv(),
            batch.source == self,
            batch.port == port,
            batch.reports@.len() == 0,
            batch.outcomes@.len() == 0,
    {
        SendBatch { source: self, port, reports: Vec::new(), outcomes: Ghost(Seq::empty()) }
    }
}

} // verus!
