//! The head of a pipeline: the batch that polls a receive queue.

use vstd::prelude::*;
use std::collections::VecDeque;
use crate::batch::{Batch, Stage};
use crate::error::PacketError;
use crate::mbuf::Mbuf;
use crate::queue::{queue_of, PacketRx};

verus! {

/// A batch that pulls its packets from a receive queue, one burst per poll
/// cycle.
pub struct ReceiveBatch<Rx: PacketRx> {
    rx: Rx,
    packets: VecDeque<Mbuf>,
    group: Ghost<Seq<Mbuf>>,
}

impl<Rx: PacketRx> ReceiveBatch<Rx> {
    /// The queue the batch polls.
    pub closed spec fn queue(&self) -> Rx {
        self.rx
    }

    /// A batch over `rx`, with no poll cycle begun.
    pub fn new(rx: Rx) -> (batch: Self)
        requires
            rx.inv(),
        ensures
            batch.inv(),
            batch.queue() == rx,
            batch.cycle() == Seq::<Mbuf>::empty(),
            batch.pending() == Seq::<Mbuf>::empty(),
    {
        ReceiveBatch {
            rx,
            packets: VecDeque::new(),
            group: Ghost(Seq::empty()),
        }
    }

    /// The queue the batch polls.
    pub fn rx(&self) -> (rx: &Rx)
        ensures
            *rx == self.queue(),
    {
        &self.rx
    }
}

impl<Rx: PacketRx> Stage for ReceiveBatch<Rx> {
    type Input = Mbuf;

    type Item = Mbuf;

    type Setup = ();

    open spec fn setup(&self) -> () {
        ()
    }

    closed spec fn inv(&self) -> bool {
        self.rx.inv()
    }

    /// What entered the pipeline is what the queue has handed out.
    open spec fn history(&self) -> Seq<Mbuf> {
        self.queue().delivered()
    }

    closed spec fn cycle(&self) -> Seq<Mbuf> {
        self.group@
    }

    closed spec fn pending(&self) -> Seq<Mbuf> {
        self.packets@
    }

    open spec fn entered(&self) -> Seq<Mbuf> {
        self.cycle()
    }

    /// The next poll cycle is the burst that the queue hands out next.
    open spec fn upcoming(&self) -> Option<Seq<Mbuf>> {
        Some(self.queue().ready())
    }

    open spec fn yields(&self, input: Mbuf, outcome: Result<Mbuf, PacketError>) -> bool {
        outcome == Ok::<Mbuf, PacketError>(input)
    }

    proof fn yields_keeps_buffer(&self, input: Mbuf, outcome: Result<Mbuf, PacketError>) {
    }
}

impl<Rx: PacketRx> Batch for ReceiveBatch<Rx> {
    fn next(&mut self) -> (res: Option<Result<Mbuf, PacketError>>)
        ensures
            final(self).queue() == old(self).queue(),
    {
        match self.packets.pop_front() {
            Some(buffer) => Some(Ok(buffer)),
            None => None,
        }
    }

    /// Polls the queue once: the burst it hands out is the new poll cycle.
    fn receive(&mut self)
        ensures
            final(self).queue().polls() == old(self).queue().polls() + 1,
            final(self).cycle() == old(self).queue().ready(),
            final(self).entered() == final(self).cycle(),
    {
        let burst = self.rx.receive();
        self.group = Ghost(burst@);
        self.packets = queue_of(burst);
    }
}

} // verus!
