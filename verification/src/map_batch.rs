//! The map operator.

use vstd::prelude::*;
use core::marker::PhantomData;
use crate::batch::{outcome_buffer, Batch, Stage};
use crate::error::{Fault, PacketError};
use crate::packet::Packet;

verus! {

/// The result a map operator gives for what its transform returned: the new
/// packet, or an abort that owns the buffer the transform handed back.
pub open spec fn lifted<T>(result: Result<T, Fault>) -> Result<T, PacketError> {
    match result {
        Ok(packet) => Ok(packet),
        Err(fault) => Err(PacketError::Abort(fault.buffer, fault.cause)),
    }
}

/// Whether what a transform returned for `item` still holds the buffer of
/// `item`, as the new packet's or as the fault's.
pub open spec fn keeps_buffer<S: Packet, T: Packet>(item: S, result: Result<T, Fault>) -> bool {
    match result {
        Ok(packet) => packet.buffer().id() == item.buffer().id(),
        Err(fault) => fault.buffer.id() == item.buffer().id(),
    }
}

/// Whether a map with the transform `map` may turn the result `up` of the batch
/// before it into `outcome`: a packet becomes whatever the transform makes of
/// it, and an error passes unchanged without the transform seeing it.
pub open spec fn mapped<S: Packet, T: Packet, M: Fn(S) -> Result<T, Fault>>(
    map: M,
    up: Result<S, PacketError>,
    outcome: Result<T, PacketError>,
) -> bool {
    match up {
        Ok(item) => exists|result: Result<T, Fault>|
            #[trigger] map.ensures((item,), result) && outcome == lifted(result),
        Err(error) => outcome == Err::<T, PacketError>(error),
    }
}

/// A batch that transforms each packet into another.
#[verifier::reject_recursive_types(T)]
pub struct MapBatch<B: Stage, T: Packet, M: Fn(B::Item) -> Result<T, Fault>> {
    /// The batch before the map.
    pub source: B,
    /// The transform.
    pub map: M,
    /// Ties the type of the new packets to the batch.
    pub marker: PhantomData<T>,
}

impl<B: Stage, T: Packet, M: Fn(B::Item) -> Result<T, Fault>> MapBatch<B, T, M> {
    /// Puts a map behind `source`.
    pub fn new(source: B, map: M) -> (batch: Self)
        requires
            source.inv(),
            forall|item: B::Item| map.requires((item,)),
            forall|item: B::Item, result: Result<T, Fault>|
                map.ensures((item,), result) ==> keeps_buffer(item, result),
        ensures
            batch.inv(),
            batch.source == source,
            batch.map == map,
    {
        MapBatch { source, map, marker: PhantomData }
    }

    /// The model of a map, stated over the batch before it and the transform.
    pub proof fn model(&self)
        ensures
            self.inv() == (self.source.inv() && (forall|item: B::Item|
                self.map.requires((item,))) && (forall|item: B::Item, result: Result<T, Fault>|
                self.map.ensures((item,), result) ==> keeps_buffer(item, result))),
            self.history() == self.source.history(),
            self.cycle() == self.source.cycle(),
            self.pending() == self.source.pending(),
            self.setup() == (self.source.setup(), self.map),
            self.entered() == self.source.entered(),
            self.upcoming() == self.source.upcoming(),
            forall|input: B::Input, outcome: Result<T, PacketError>|
                #[trigger] self.yields(input, outcome) == (exists|up: Result<B::Item, PacketError>|
                    #[trigger] self.source.yields(input, up) && mapped(self.map, up, outcome)),
    {
    }
}

impl<B: Stage, T: Packet, M: Fn(B::Item) -> Result<T, Fault>> Stage for MapBatch<B, T, M> {
    type Input = B::Input;

    type Item = T;

    type Setup = (B::Setup, M);

    open spec fn setup(&self) -> (B::Setup, M) {
        (self.source.setup(), self.map)
    }

    open spec fn inv(&self) -> bool {
        &&& self.source.inv()
        &&& forall|item: B::Item| self.map.requires((item,))
        &&& forall|item: B::Item, result: Result<T, Fault>|
            self.map.ensures((item,), result) ==> keeps_buffer(item, result)
    }

    open spec fn history(&self) -> Seq<B::Input> {
        self.source.history()
    }

    open spec fn cycle(&self) -> Seq<B::Input> {
        self.source.cycle()
    }

    open spec fn pending(&self) -> Seq<B::Input> {
        self.source.pending()
    }

    open spec fn entered(&self) -> Seq<B::Input> {
        self.source.entered()
    }

    open spec fn upcoming(&self) -> Option<Seq<B::Input>> {
        self.source.upcoming()
    }

    open spec fn yields(&self, input: B::Input, outcome: Result<T, PacketError>) -> bool {
        exists|up: Result<B::Item, PacketError>|
            #[trigger] self.source.yields(input, up) && mapped(self.map, up, outcome)
    }

    proof fn yields_keeps_buffer(&self, input: B::Input, outcome: Result<T, PacketError>) {
        let up = choose|up: Result<B::Item, PacketError>|
            #[trigger] self.source.yields(input, up) && mapped(self.map, up, outcome);
        self.source.yields_keeps_buffer(input, up);
        match up {
            Ok(item) => {
                let result = choose|result: Result<T, Fault>|
                    #[trigger] self.map.ensures((item,), result) && outcome == lifted(result);
                assert(keeps_buffer(item, result));
            },
            Err(error) => {},
        }
    }
}

impl<B: Batch, T: Packet, M: Fn(B::Item) -> Result<T, Fault>> Batch for MapBatch<B, T, M> {
    fn next(&mut self) -> (res: Option<Result<T, PacketError>>)
        ensures
            final(self).map == old(self).map,
            final(self).source.inv(),
            final(self).source.setup() == old(self).source.setup(),
            final(self).source.history() == old(self).source.history(),
            final(self).source.cycle() == old(self).source.cycle(),
            final(self).source.entered() == old(self).source.entered(),
            final(self).source.upcoming() == old(self).source.upcoming(),
            forall|input: B::Input, outcome: Result<B::Item, PacketError>|
                #![trigger final(self).source.yields(input, outcome)]
                #![trigger old(self).source.yields(input, outcome)]
                final(self).source.yields(input, outcome) == old(self).source.yields(
                    input,
                    outcome,
                ),
            match res {
                Some(outcome) => {
                    &&& old(self).source.pending().len() > 0
                    &&& final(self).source.pending() == old(self).source.pending().skip(1)
                    &&& exists|up: Result<B::Item, PacketError>|
                        #[trigger] old(self).source.yields(old(self).source.pending()[0], up)
                            && mapped(old(self).map, up, outcome)
                },
                None => {
                    &&& old(self).source.pending().len() == 0
                    &&& final(self).source.pending() == old(self).source.pending()
                },
            },
    {
        match self.source.next() {
            None => None,
            Some(Err(error)) => Some(Err(error)),
            Some(Ok(item)) => {
                match (self.map)(item) {
                    Ok(packet) => Some(Ok(packet)),
                    Err(fault) => Some(Err(PacketError::Abort(fault.buffer, fault.cause))),
                }
            },
        }
    }

    fn receive(&mut self)
        ensures
            final(self).map == old(self).map,
            final(self).source.inv(),
            final(self).source.setup() == old(self).source.setup(),
            final(self).source.history() == old(self).source.history() + final(
                self).source.cycle(),
            final(self).source.pending() == final(self).source.cycle(),
            old(self).source.upcoming() matches Some(group) ==> final(self).source.entered()
                == group,
            forall|input: B::Input, outcome: Result<B::Item, PacketError>|
                #![trigger final(self).source.yields(input, outcome)]
                #![trigger old(self).source.yields(input, outcome)]
                final(self).source.yields(input, outcome) == old(self).source.yields(
                    input,
                    outcome,
                ),
    {
        self.source.receive()
    }
}

} // verus!
