//! The sub-pipelines that a group-by operator feeds.

use vstd::prelude::*;
use crate::batch::{outcome_buffer, Batch, Stage};
use crate::bridge::Feed;
use crate::error::PacketError;
use crate::ids::{
    buffer_ids, disposed_ids, lemma_all_rejoin, lemma_buffer_ids_add, lemma_none_rejoin,
    lemma_occurrences_add, occurrences,
};
use crate::laws::buffers_conserved;
use crate::packet::Packet;
use crate::queue::PacketTx;
use crate::send_batch::SendBatch;

verus! {

/// A sub-pipeline bound to one key of a group-by operator. It takes the
/// packets of its key, in order, runs them through its own stages within the
/// same poll cycle, and tells what became of each.
pub trait Group: Sized {
    /// The packets the sub-pipeline takes and hands back.
    type Item: Packet;

    /// Whether the sub-pipeline is well formed and at rest.
    spec fn ready(&self) -> bool;

    /// Every packet given to the sub-pipeline so far, oldest first.
    spec fn dispatched(&self) -> Seq<Self::Item>;

    /// How often the sub-pipeline has disposed of a buffer with the identity
    /// `id` itself: handed it to a port, or released it.
    spec fn disposed(&self, id: u64) -> nat;

    /// Whether `fate` is what the sub-pipeline may make of `item`: a result that
    /// rejoins the parent's output, or nothing where the sub-pipeline disposes
    /// of the packet itself.
    spec fn handles(&self, item: Self::Item, fate: Option<Result<Self::Item, PacketError>>) -> bool;

    /// A result that rejoins the parent's output owns the buffer of the packet
    /// it was given for.
    proof fn handles_keeps_buffer(&self, item: Self::Item, outcome: Result<Self::Item, PacketError>)
        requires
            self.ready(),
        ensures
            self.handles(item, Some(outcome)) ==> outcome_buffer(outcome).id()
                == item.buffer().id(),
    ;

    /// Runs `items` through the sub-pipeline and returns the fate of each, in
    /// the order of `items`.
    fn dispatch(&mut self, items: Vec<Self::Item>) -> (fates: Vec<
        Option<Result<Self::Item, PacketError>>,
    >)
        requires
            old(self).ready(),
        ensures
            final(self).ready(),
            final(self).dispatched() == old(self).dispatched() + items@,
            forall|item: Self::Item, fate: Option<Result<Self::Item, PacketError>>|
                #![trigger final(self).handles(item, fate)]
                #![trigger old(self).handles(item, fate)]
                final(self).handles(item, fate) == old(self).handles(item, fate),
            fates@.len() == items@.len(),
            forall|i: int|
                0 <= i < items@.len() ==> final(self).handles(items@[i], #[trigger] fates@[i]),
            forall|id: u64|
                #[trigger] final(self).disposed(id) == old(self).disposed(id) + occurrences(
                    disposed_ids(items@, fates@),
                    id,
                ),
    ;
}

/// A chain of operators behind a head that is fed is a sub-pipeline whose
/// every result rejoins the parent's output.
impl<T: Packet, G: Feed + Stage<Input = T, Item = T>> Group for G {
    type Item = T;

    open spec fn ready(&self) -> bool {
        &&& self.inv()
        &&& self.pending().len() == 0
    }

    open spec fn dispatched(&self) -> Seq<T> {
        self.history()
    }

    /// A chain disposes of nothing itself.
    open spec fn disposed(&self, id: u64) -> nat {
        0
    }

    open spec fn handles(&self, item: T, fate: Option<Result<T, PacketError>>) -> bool {
        match fate {
            Some(outcome) => self.yields(item, outcome),
            None => false,
        }
    }

    proof fn handles_keeps_buffer(&self, item: T, outcome: Result<T, PacketError>) {
        if self.yields(item, outcome) {
            self.yields_keeps_buffer(item, outcome);
        }
    }

    fn dispatch(&mut self, items: Vec<T>) -> (fates: Vec<Option<Result<T, PacketError>>>) {
        let ghost fed = items@;
        self.feed(items);
        let mut fates: Vec<Option<Result<T, PacketError>>> = Vec::new();
        loop
            invariant
                self.inv(),
                self.history() == old(self).history() + fed,
                forall|input: T, outcome: Result<T, PacketError>|
                    #![trigger self.yields(input, outcome)]
                    #![trigger old(self).yields(input, outcome)]
                    self.yields(input, outcome) == old(self).yields(input, outcome),
                fates@.len() + self.pending().len() == fed.len(),
                self.pending() == fed.skip(fates@.len() as int),
                forall|i: int|
                    0 <= i < fates@.len() ==> self.handles(fed[i], #[trigger] fates@[i]),
            ensures
                self.pending().len() == 0,
            decreases self.pending().len(),
        {
            match self.next() {
                None => {
                    break ;
                },
                Some(outcome) => {
                    fates.push(Some(outcome));
                },
            }
        }
        proof {
            lemma_all_rejoin(fed, fates@);
        }
        fates
    }
}

/// A sub-pipeline that ends in a send operator disposes of every packet
/// itself: nothing rejoins the parent's output.
impl<T: Packet, B: Feed + Stage<Input = T, Item = T>, Tx: PacketTx> Group for SendBatch<B, Tx> {
    type Item = T;

    open spec fn ready(&self) -> bool {
        &&& self.inv()
        &&& self.source.pending().len() == 0
    }

    open spec fn dispatched(&self) -> Seq<T> {
        self.source.history()
    }

    /// What the port took, and what was released to it.
    open spec fn disposed(&self, id: u64) -> nat {
        occurrences(buffer_ids(self.port.sent()), id) + occurrences(
            buffer_ids(self.port.released()),
            id,
        )
    }

    open spec fn handles(&self, item: T, fate: Option<Result<T, PacketError>>) -> bool {
        fate is None
    }

    proof fn handles_keeps_buffer(&self, item: T, outcome: Result<T, PacketError>) {
    }

    /// The poll cycle is run as `flush` runs it, and its report is kept for
    /// `take_reports`.
    fn dispatch(&mut self, items: Vec<T>) -> (fates: Vec<Option<Result<T, PacketError>>>)
        ensures
            final(self).source.cycle() == items@,
            final(self).outcomes@.len() == items@.len(),
            forall|i: int|
                0 <= i < items@.len() ==> final(self).source.yields(
                    items@[i],
                    #[trigger] final(self).outcomes@[i],
                ),
            final(self).reports@.len() == old(self).reports@.len() + 1,
            final(self).reports@.drop_last() == old(self).reports@,
            Self::settled(
                old(self).port,
                final(self).port,
                final(self).outcomes@,
                final(self).reports@.last(),
            ),
    {
        let count = items.len();
        let ghost fed = items@;
        self.source.feed(items);
        let report = self.flush();
        let ghost told = report;
        self.reports.push(report);
        let mut fates: Vec<Option<Result<T, PacketError>>> = Vec::new();
        while fates.len() < count
            invariant
                fates@.len() <= count,
                forall|i: int| 0 <= i < fates@.len() ==> (#[trigger] fates@[i]) is None,
            decreases count - fates@.len(),
        {
            fates.push(None);
        }
        proof {
            lemma_none_rejoin(fed, fates@);
            let sent = old(self).port.sent();
            let released = old(self).port.released();
            let newly_sent = self.port.sent().skip(sent.len() as int);
            let newly_released = self.port.released().skip(released.len() as int);
            assert(self.port.sent() == sent + newly_sent);
            assert(self.port.released() == released + newly_released);
            lemma_buffer_ids_add(sent, newly_sent);
            lemma_buffer_ids_add(released, newly_released);
            assert forall|id: u64|
                #[trigger] self.disposed(id) == old(self).disposed(id) + occurrences(
                    disposed_ids(fed, fates@),
                    id,
                ) by {
                buffers_conserved(self.source, old(self).port, self.port, self.outcomes@, told, id);
                lemma_occurrences_add(buffer_ids(sent), buffer_ids(newly_sent), id);
                lemma_occurrences_add(buffer_ids(released), buffer_ids(newly_released), id);
            }
        }
        fates
    }
}

} // verus!
