//! The send operator: the end of a pipeline.

use vstd::prelude::*;
use crate::batch::{Batch, Stage};
use crate::error::PacketError;
use crate::mbuf::Mbuf;
use crate::packet::Packet;
use crate::queue::PacketTx;

verus! {

/// The buffers of the packets among `outcomes` that survived the pipeline, in
/// order.
pub open spec fn survivors<T: Packet>(outcomes: Seq<Result<T, PacketError>>) -> Seq<Mbuf>
    decreases outcomes.len(),
{
    if outcomes.len() == 0 {
        Seq::empty()
    } else {
        match outcomes.last() {
            Ok(item) => survivors(outcomes.drop_last()).push(item.buffer()),
            Err(_) => survivors(outcomes.drop_last()),
        }
    }
}

/// The buffers of the packets among `outcomes` that were dropped or aborted,
/// in order.
pub open spec fn casualties<T: Packet>(outcomes: Seq<Result<T, PacketError>>) -> Seq<Mbuf>
    decreases outcomes.len(),
{
    if outcomes.len() == 0 {
        Seq::empty()
    } else {
        match outcomes.last() {
            Ok(_) => casualties(outcomes.drop_last()),
            Err(error) => casualties(outcomes.drop_last()).push(error.buffer()),
        }
    }
}

/// The diagnostics of the aborted packets among `outcomes`, in order.
pub open spec fn diagnostics<T: Packet>(outcomes: Seq<Result<T, PacketError>>) -> Seq<
    failure::Error,
>
    decreases outcomes.len(),
{
    if outcomes.len() == 0 {
        Seq::empty()
    } else {
        match outcomes.last() {
            Err(PacketError::Abort(_, cause)) => diagnostics(outcomes.drop_last()).push(cause),
            _ => diagnostics(outcomes.drop_last()),
        }
    }
}

/// What one poll cycle of a send operator did with the packets it was given.
#[derive(Debug)]
pub struct Report {
    /// How many packets the port accepted for transmission.
    pub transmitted: usize,
    /// How many packets survived the pipeline but were not accepted by the
    /// port. Their buffers were released.
    pub unsent: usize,
    /// How many packets reached the end of the pipeline as drops. Their
    /// buffers were released.
    pub dropped: usize,
    /// The diagnostics of the packets that reached the end of the pipeline as
    /// aborts, in order. Their buffers were released.
    pub aborted: Vec<failure::Error>,
}

impl Report {
    /// How many buffers went back to the memory pool.
    pub open spec fn released(&self) -> nat {
        (self.unsent + self.dropped + self.aborted@.len()) as nat
    }
}

/// A batch that sends what reaches the end of the pipeline.
pub struct SendBatch<B: Stage, Tx: PacketTx> {
    /// The batch before the send.
    pub source: B,
    /// Where the surviving packets go, and the buffers of the others.
    pub port: Tx,
    /// The reports of the poll cycles that were run for a group-by operator,
    /// oldest first.
    pub reports: Vec<Report>,
    /// What the pipeline gave for each packet of the last poll cycle.
    pub outcomes: Ghost<Seq<Result<B::Item, PacketError>>>,
}

impl<B: Stage, Tx: PacketTx> SendBatch<B, Tx> {
    /// Whether the operator is well formed.
    pub open spec fn inv(&self) -> bool {
        &&& self.source.inv()
        &&& self.port.inv()
    }

    /// Whether `report` and the port `after` tell what a send operator does
    /// with `outcomes` when its port was `before`: all the survivors are
    /// offered to the port, in order and in one burst; the port takes as many
    /// of them as it accepts; and the buffers of all other packets, then of
    /// the survivors that the port did not accept, are released.
    pub open spec fn settled(
        before: Tx,
        after: Tx,
        outcomes: Seq<Result<B::Item, PacketError>>,
        report: Report,
    ) -> bool {
        &&& after.offered() == before.offered() + survivors(outcomes)
        &&& report.transmitted == before.accepts(survivors(outcomes).len())
        &&& report.transmitted <= survivors(outcomes).len()
        &&& report.unsent == survivors(outcomes).len() - report.transmitted
        &&& report.dropped == casualties(outcomes).len() - diagnostics(outcomes).len()
        &&& report.aborted@ == diagnostics(outcomes)
        &&& after.sent() == before.sent() + survivors(outcomes).take(report.transmitted as int)
        &&& after.released() == before.released() + casualties(outcomes) + survivors(
            outcomes,
        ).skip(report.transmitted as int)
    }

    /// Puts a send behind `source`.
    pub fn new(source: B, port: Tx) -> (batch: Self)
        requires
            source.inv(),
            port.inv(),
        ensures
            batch.inv(),
            batch.source == source,
            batch.port == port,
            batch.reports@.len() == 0,
            batch.outcomes@.len() == 0,
    {
        SendBatch { source, port, reports: Vec::new(), outcomes: Ghost(Seq::empty()) }
    }

    /// Takes the reports of the poll cycles that were run for a dispatch
    /// operator since the last call, oldest first.
    pub fn take_reports(&mut self) -> (reports: Vec<Report>)
        ensures
            reports == old(self).reports,
            final(self).reports@.len() == 0,
            final(self).source == old(self).source,
            final(self).port == old(self).port,
            final(self).outcomes == old(self).outcomes,
    {
        let mut reports: Vec<Report> = Vec::new();
        core::mem::swap(&mut self.reports, &mut reports);
        reports
    }

}

impl<B: Batch, Tx: PacketTx> SendBatch<B, Tx> {
    /// Runs one poll cycle: receives a new batch, pulls every result out of
    /// the pipeline, offers the survivors to the port and releases the buffers
    /// of everything else. The poll cycle before it must be exhausted, as it
    /// is after `execute` and after `flush`.
    pub fn execute(&mut self) -> (report: Report)
        requires
            old(self).inv(),
            old(self).source.pending().len() == 0,
        ensures
            final(self).inv(),
            final(self).source.pending().len() == 0,
            final(self).source.setup() == old(self).source.setup(),
            old(self).source.upcoming() matches Some(group) ==> final(self).source.entered()
                == group,
            final(self).reports == old(self).reports,
            final(self).source.history() == old(self).source.history() + final(self).source.cycle(),
            forall|input: B::Input, outcome: Result<B::Item, PacketError>|
                #![trigger final(self).source.yields(input, outcome)]
                #![trigger old(self).source.yields(input, outcome)]
                final(self).source.yields(input, outcome) == old(self).source.yields(
                    input,
                    outcome,
                ),
            final(self).outcomes@.len() == final(self).source.cycle().len(),
            forall|i: int|
                0 <= i < final(self).outcomes@.len() ==> final(self).source.yields(
                    final(self).source.cycle()[i],
                    #[trigger] final(self).outcomes@[i],
                ),
            Self::settled(old(self).port, final(self).port, final(self).outcomes@, report),
            report.transmitted + report.released() == final(self).source.cycle().len(),
    {
        self.source.receive();
        self.flush()
    }

    /// Ends the poll cycle that the pipeline is in: pulls every result that is
    /// left out of the pipeline, offers the survivors to the port and releases
    /// the buffers of everything else.
    pub fn flush(&mut self) -> (report: Report)
        requires
            old(self).source.inv(),
            old(self).port.inv(),
        ensures
            final(self).inv(),
            final(self).source.pending().len() == 0,
            final(self).source.setup() == old(self).source.setup(),
            final(self).reports == old(self).reports,
            final(self).source.history() == old(self).source.history(),
            final(self).source.cycle() == old(self).source.cycle(),
            final(self).source.entered() == old(self).source.entered(),
            final(self).source.upcoming() == old(self).source.upcoming(),
            forall|input: B::Input, outcome: Result<B::Item, PacketError>|
                #![trigger final(self).source.yields(input, outcome)]
                #![trigger old(self).source.yields(input, outcome)]
                final(self).source.yields(input, outcome) == old(self).source.yields(
                    input,
                    outcome,
                ),
            final(self).outcomes@.len() == old(self).source.pending().len(),
            forall|i: int|
                0 <= i < final(self).outcomes@.len() ==> final(self).source.yields(
                    old(self).source.pending()[i],
                    #[trigger] final(self).outcomes@[i],
                ),
            Self::settled(old(self).port, final(self).port, final(self).outcomes@, report),
            report.transmitted + report.released() == old(self).source.pending().len(),
    {
        let mut transmit_q: Vec<Mbuf> = Vec::new();
        let mut drop_q: Vec<Mbuf> = Vec::new();
        let mut aborted: Vec<failure::Error> = Vec::new();
        let ghost mut seen: Seq<Result<B::Item, PacketError>> = Seq::empty();
        let ghost group = self.source.pending();
        loop
            invariant
                self.source.inv(),
                self.port == old(self).port,
                self.reports == old(self).reports,
                self.source.setup() == old(self).source.setup(),
                self.source.history() == old(self).source.history(),
                self.source.cycle() == old(self).source.cycle(),
                self.source.entered() == old(self).source.entered(),
                self.source.upcoming() == old(self).source.upcoming(),
                forall|input: B::Input, outcome: Result<B::Item, PacketError>|
                    #![trigger self.source.yields(input, outcome)]
                    #![trigger old(self).source.yields(input, outcome)]
                    self.source.yields(input, outcome) == old(self).source.yields(
                        input,
                        outcome,
                    ),
                group == old(self).source.pending(),
                seen.len() + self.source.pending().len() == group.len(),
                self.source.pending() == group.skip(seen.len() as int),
                forall|i: int|
                    0 <= i < seen.len() ==> self.source.yields(group[i], #[trigger] seen[i]),
                transmit_q@ == survivors(seen),
                drop_q@ == casualties(seen),
                aborted@ == diagnostics(seen),
            ensures
                self.source.pending().len() == 0,
            decreases self.source.pending().len(),
        {
            let ghost before = seen;
            match self.source.next() {
                None => {
                    break ;
                },
                Some(Ok(packet)) => {
                    proof {
                        seen = seen.push(Ok(packet));
                        assert(seen.drop_last() == before);
                    }
                    transmit_q.push(packet.reset());
                },
                Some(Err(PacketError::Drop(buffer))) => {
                    proof {
                        seen = seen.push(Err(PacketError::Drop(buffer)));
                        assert(seen.drop_last() == before);
                    }
                    drop_q.push(buffer);
                },
                Some(Err(PacketError::Abort(buffer, cause))) => {
                    proof {
                        seen = seen.push(Err(PacketError::Abort(buffer, cause)));
                        assert(seen.drop_last() == before);
                    }
                    drop_q.push(buffer);
                    aborted.push(cause);
                },
            }
        }
        proof {
            lemma_every_outcome_counted(seen);
        }
        let dropped = drop_q.len() - aborted.len();
        let transmitted = self.port.send(&mut transmit_q);
        let unsent = transmit_q.len();
        drop_q.append(&mut transmit_q);
        let ghost freed = drop_q@;
        self.port.release(drop_q);
        self.outcomes = Ghost(seen);
        assert(self.port.released() == old(self).port.released() + casualties(seen) + survivors(
            seen,
        ).skip(transmitted as int)) by {
            assert(old(self).port.released() + freed =~= old(self).port.released() + casualties(
                seen,
            ) + survivors(seen).skip(transmitted as int));
        }
        Report { transmitted, unsent, dropped, aborted }
    }
}

/// Every outcome is either a survivor or a casualty, and no casualty has more
/// than one diagnostic.
pub proof fn lemma_every_outcome_counted<T: Packet>(outcomes: Seq<Result<T, PacketError>>)
    ensures
        survivors(outcomes).len() + casualties(outcomes).len() == outcomes.len(),
        diagnostics(outcomes).len() <= casualties(outcomes).len(),
    decreases outcomes.len(),
{
    if outcomes.len() > 0 {
        lemma_every_outcome_counted(outcomes.drop_last());
    }
}

} // verus!
