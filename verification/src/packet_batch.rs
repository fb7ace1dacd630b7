//! A batch of one packet made from bytes.

use vstd::prelude::*;
use crate::batch::{Batch, Stage};
use crate::error::PacketError;
use crate::mbuf::Mbuf;

verus! {

/// A batch that yields a single packet, once. It stands at the head of a
/// pipeline where no queue is at hand.
pub struct PacketBatch {
    packet: Option<Mbuf>,
    group: Ghost<Seq<Mbuf>>,
    past: Ghost<Seq<Mbuf>>,
}

impl PacketBatch {
    /// A batch whose only packet is a buffer with the identity 0 that holds a
    /// copy of `data`. The packet is there at once, before any `receive`.
    pub fn new(data: &[u8]) -> (batch: PacketBatch)
        ensures
            batch.inv(),
            batch.cycle().len() == 1,
            batch.cycle()[0]@ == data@,
            batch.cycle()[0].id() == 0,
            batch.pending() == batch.cycle(),
            batch.history() == batch.cycle(),
    {
        let buffer = Mbuf::from_bytes(0, data);
        let ghost group = Seq::<Mbuf>::empty().push(buffer);
        PacketBatch { packet: Some(buffer), group: Ghost(group), past: Ghost(group) }
    }
}

impl Stage for PacketBatch {
    type Input = Mbuf;

    type Item = Mbuf;

    type Setup = ();

    open spec fn setup(&self) -> () {
        ()
    }

    closed spec fn inv(&self) -> bool {
        match self.packet {
            Some(buffer) => self.group@ == Seq::<Mbuf>::empty().push(buffer),
            None => true,
        }
    }

    closed spec fn history(&self) -> Seq<Mbuf> {
        self.past@
    }

    closed spec fn cycle(&self) -> Seq<Mbuf> {
        self.group@
    }

    closed spec fn pending(&self) -> Seq<Mbuf> {
        match self.packet {
            Some(buffer) => Seq::<Mbuf>::empty().push(buffer),
            None => Seq::<Mbuf>::empty(),
        }
    }

    open spec fn entered(&self) -> Seq<Mbuf> {
        self.cycle()
    }

    /// There is no queue to poll: the poll cycle that `receive` begins is empty.
    open spec fn upcoming(&self) -> Option<Seq<Mbuf>> {
        Some(Seq::empty())
    }

    open spec fn yields(&self, input: Mbuf, outcome: Result<Mbuf, PacketError>) -> bool {
        outcome == Ok::<Mbuf, PacketError>(input)
    }

    proof fn yields_keeps_buffer(&self, input: Mbuf, outcome: Result<Mbuf, PacketError>) {
    }
}

impl Batch for PacketBatch {
    fn next(&mut self) -> (res: Option<Result<Mbuf, PacketError>>) {
        match self.packet.take() {
            Some(buffer) => Some(Ok(buffer)),
            None => None,
        }
    }

    /// There is no queue to poll: the poll cycle that begins is empty.
    fn receive(&mut self)
        ensures
            final(self).cycle() == Seq::<Mbuf>::empty(),
    {
        self.group = Ghost(Seq::empty());
    }
}

} // verus!
