//! The head of a sub-pipeline: a batch that is handed its packets.

use vstd::prelude::*;
use std::collections::VecDeque;
use crate::batch::{Batch, Stage};
use crate::error::{Fault, PacketError};
use crate::filter_batch::FilterBatch;
use crate::map_batch::MapBatch;
use crate::packet::Packet;
use crate::queue::queue_of;

verus! {

/// A pipeline whose head takes the packets of a poll cycle from whoever owns
/// the pipeline, in place of polling a queue for them.
pub trait Feed: Batch {
    /// Begins a poll cycle that consists of `items`. The poll cycle before it
    /// must be exhausted.
    fn feed(&mut self, items: Vec<Self::Input>)
        requires
            old(self).inv(),
            old(self).pending().len() == 0,
        ensures
            final(self).inv(),
            final(self).setup() == old(self).setup(),
            final(self).cycle() == items@,
            final(self).pending() == items@,
            final(self).history() == old(self).history() + items@,
            final(self).entered() == items@,
            final(self).upcoming() == old(self).upcoming(),
            forall|input: Self::Input, outcome: Result<Self::Item, PacketError>|
                #![trigger final(self).yields(input, outcome)]
                #![trigger old(self).yields(input, outcome)]
                final(self).yields(input, outcome) == old(self).yields(input, outcome),
    ;
}

/// The batch at the head of a sub-pipeline. It yields the packets it was fed,
/// as they are.
pub struct Bridge<T: Packet> {
    packets: VecDeque<T>,
    group: Ghost<Seq<T>>,
    past: Ghost<Seq<T>>,
}

impl<T: Packet> Bridge<T> {
    /// A bridge that was fed nothing yet.
    pub fn new() -> (bridge: Self)
        ensures
            bridge.inv(),
            bridge.history() == Seq::<T>::empty(),
            bridge.cycle() == Seq::<T>::empty(),
            bridge.pending() == Seq::<T>::empty(),
    {
        Bridge { packets: VecDeque::new(), group: Ghost(Seq::empty()), past: Ghost(Seq::empty()) }
    }
}

impl<T: Packet> Stage for Bridge<T> {
    type Input = T;

    type Item = T;

    type Setup = ();

    open spec fn setup(&self) -> () {
        ()
    }

    open spec fn inv(&self) -> bool {
        true
    }

    closed spec fn history(&self) -> Seq<T> {
        self.past@
    }

    closed spec fn cycle(&self) -> Seq<T> {
        self.group@
    }

    closed spec fn pending(&self) -> Seq<T> {
        self.packets@
    }

    open spec fn entered(&self) -> Seq<T> {
        self.cycle()
    }

    /// A bridge polls nothing: the poll cycle it begins by itself is empty.
    open spec fn upcoming(&self) -> Option<Seq<T>> {
        Some(Seq::empty())
    }

    open spec fn yields(&self, input: T, outcome: Result<T, PacketError>) -> bool {
        outcome == Ok::<T, PacketError>(input)
    }

    proof fn yields_keeps_buffer(&self, input: T, outcome: Result<T, PacketError>) {
    }
}

impl<T: Packet> Batch for Bridge<T> {
    fn next(&mut self) -> (res: Option<Result<T, PacketError>>) {
        match self.packets.pop_front() {
            Some(packet) => Some(Ok(packet)),
            None => None,
        }
    }

    /// A bridge polls nothing: the poll cycle it begins by itself is empty.
    fn receive(&mut self)
        ensures
            final(self).cycle() == Seq::<T>::empty(),
    {
        self.packets = VecDeque::new();
        self.group = Ghost(Seq::empty());
    }
}

impl<T: Packet> Feed for Bridge<T> {
    fn feed(&mut self, items: Vec<T>) {
        self.group = Ghost(items@);
        self.past = Ghost(self.past@ + items@);
        self.packets = queue_of(items);
    }
}

impl<B: Feed, P: Fn(&B::Item) -> bool> Feed for FilterBatch<B, P> {
    fn feed(&mut self, items: Vec<B::Input>)
        ensures
            final(self).predicate == old(self).predicate,
    {
        self.source.feed(items)
    }
}

impl<B: Feed, T: Packet, M: Fn(B::Item) -> Result<T, Fault>> Feed for MapBatch<B, T, M> {
    fn feed(&mut self, items: Vec<B::Input>)
        ensures
            final(self).map == old(self).map,
    {
        self.source.feed(items)
    }
}

} // verus!
