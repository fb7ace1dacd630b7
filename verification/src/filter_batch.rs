//! The filter operator.

use vstd::prelude::*;
use crate::batch::{outcome_buffer, Batch, Stage};
use crate::error::PacketError;
use crate::packet::Packet;

verus! {

/// Whether a filter with the predicate `predicate` may turn the result `up` of
/// the batch before it into `outcome`: a packet the predicate accepts passes
/// unchanged, one it rejects becomes a drop that owns the packet's buffer, and
/// an error passes unchanged without the predicate seeing it.
pub open spec fn filtered<T: Packet, P: Fn(&T) -> bool>(
    predicate: P,
    up: Result<T, PacketError>,
    outcome: Result<T, PacketError>,
) -> bool {
    match up {
        Ok(item) => {
            ||| predicate.ensures((&item,), true) && outcome == Ok::<T, PacketError>(item)
            ||| predicate.ensures((&item,), false) && outcome == Err::<T, PacketError>(
                PacketError::Drop(item.buffer()),
            )
        },
        Err(error) => outcome == Err::<T, PacketError>(error),
    }
}

/// A batch that drops the packets its predicate rejects.
pub struct FilterBatch<B: Stage, P: Fn(&B::Item) -> bool> {
    /// The batch before the filter.
    pub source: B,
    /// Tells which packets pass.
    pub predicate: P,
}

impl<B: Stage, P: Fn(&B::Item) -> bool> FilterBatch<B, P> {
    /// Puts a filter behind `source`.
    pub fn new(source: B, predicate: P) -> (batch: Self)
        requires
            source.inv(),
            forall|item: B::Item| predicate.requires((&item,)),
        ensures
            batch.inv(),
            batch.source == source,
            batch.predicate == predicate,
    {
        FilterBatch { source, predicate }
    }

    /// The model of a filter, stated over the batch before it and the
    /// predicate.
    pub proof fn model(&self)
        ensures
            self.inv() == (self.source.inv() && forall|item: B::Item|
                self.predicate.requires((&item,))),
            self.history() == self.source.history(),
            self.cycle() == self.source.cycle(),
            self.pending() == self.source.pending(),
            self.setup() == (self.source.setup(), self.predicate),
            self.entered() == self.source.entered(),
            self.upcoming() == self.source.upcoming(),
            forall|input: B::Input, outcome: Result<B::Item, PacketError>|
                #[trigger] self.yields(input, outcome) == (exists|up: Result<B::Item, PacketError>|
                    #[trigger] self.source.yields(input, up) && filtered(
                        self.predicate,
                        up,
                        outcome,
                    )),
    {
    }
}

impl<B: Stage, P: Fn(&B::Item) -> bool> Stage for FilterBatch<B, P> {
    type Input = B::Input;

    type Item = B::Item;

    type Setup = (B::Setup, P);

    open spec fn setup(&self) -> (B::Setup, P) {
        (self.source.setup(), self.predicate)
    }

    open spec fn inv(&self) -> bool {
        &&& self.source.inv()
        &&& forall|item: B::Item| self.predicate.requires((&item,))
    }

    open spec fn history(&self) -> Seq<B::Input> {
        self.source.history()
    }

    open spec fn cycle(&self) -> Seq<B::Input> {
        self.source.cycle()
    }

    open spec fn pending(&self) -> Seq<B::Input> {
        self.source.pending()
    }

    open spec fn entered(&self) -> Seq<B::Input> {
        self.source.entered()
    }

    open spec fn upcoming(&self) -> Option<Seq<B::Input>> {
        self.source.upcoming()
    }

    open spec fn yields(&self, input: B::Input, outcome: Result<B::Item, PacketError>) -> bool {
        exists|up: Result<B::Item, PacketError>|
            #[trigger] self.source.yields(input, up) && filtered(self.predicate, up, outcome)
    }

    proof fn yields_keeps_buffer(&self, input: B::Input, outcome: Result<B::Item, PacketError>) {
        let up = choose|up: Result<B::Item, PacketError>|
            #[trigger] self.source.yields(input, up) && filtered(self.predicate, up, outcome);
        self.source.yields_keeps_buffer(input, up);
        assert(outcome_buffer(outcome) == outcome_buffer(up));
    }
}

impl<B: Batch, P: Fn(&B::Item) -> bool> Batch for FilterBatch<B, P> {
    fn next(&mut self) -> (res: Option<Result<B::Item, PacketError>>)
        ensures
            final(self).predicate == old(self).predicate,
            final(self).source.inv(),
            final(self).source.setup() == old(self).source.setup(),
            final(self).source.history() == old(self).source.history(),
            final(self).source.cycle() == old(self).source.cycle(),
            final(self).source.entered() == old(self).source.entered(),
            final(self).source.upcoming() == old(self).source.upcoming(),
            forall|input: B::Input, outcome: Result<B::Item, PacketError>|
                #![trigger final(self).source.yields(input, outcome)]
                #![trigger old(self).source.yields(input, outcome)]
                final(self).source.yields(input, outcome) == old(self).source.yields(
                    input,
                    outcome,
                ),
            match res {
                Some(outcome) => {
                    &&& old(self).source.pending().len() > 0
                    &&& final(self).source.pending() == old(self).source.pending().skip(1)
                    &&& exists|up: Result<B::Item, PacketError>|
                        #[trigger] old(self).source.yields(old(self).source.pending()[0], up)
                            && filtered(old(self).predicate, up, outcome)
                },
                None => {
                    &&& old(self).source.pending().len() == 0
                    &&& final(self).source.pending() == old(self).source.pending()
                },
            },
    {
        match self.source.next() {
            None => None,
            Some(Err(error)) => Some(Err(error)),
            Some(Ok(item)) => {
                if (self.predicate)(&item) {
                    Some(Ok(item))
                } else {
                    Some(Err(PacketError::Drop(item.reset())))
                }
            },
        }
    }

    fn receive(&mut self)
        ensures
            final(self).predicate == old(self).predicate,
            final(self).source.inv(),
            final(self).source.setup() == old(self).source.setup(),
            final(self).source.history() == old(self).source.history() + final(
                self).source.cycle(),
            final(self).source.pending() == final(self).source.cycle(),
            old(self).source.upcoming() matches Some(group) ==> final(self).source.entered()
                == group,
            forall|input: B::Input, outcome: Result<B::Item, PacketError>|
                #![trigger final(self).source.yields(input, outcome)]
                #![trigger old(self).source.yields(input, outcome)]
                final(self).source.yields(input, outcome) == old(self).source.yields(
                    input,
                    outcome,
                ),
    {
        self.source.receive()
    }
}

} // verus!
