//! The queues at the two ends of a pipeline.

use vstd::prelude::*;
use std::collections::VecDeque;
use crate::mbuf::Mbuf;

verus! {

/// Lines up `items` as a queue, the first of them at its front.
pub fn queue_of<T>(items: Vec<T>) -> (queue: VecDeque<T>)
    ensures
        queue@ == items@,
{
    let mut items = items;
    let ghost all = items@;
    let mut queue: VecDeque<T> = VecDeque::new();
    loop
        invariant
            items@.len() <= all.len(),
            items@ == all.take(items@.len() as int),
            queue@ == all.skip(items@.len() as int),
        ensures
            queue@ == all,
        decreases items@.len(),
    {
        match items.pop() {
            Some(item) => {
                queue.push_front(item);
            },
            None => {
                break ;
            },
        }
    }
    queue
}

/// The receiving side of a port queue. A value of the queue stands for the
/// state of the ring at the moment of the next poll.
pub trait PacketRx {
    /// Whether the queue is well formed.
    spec fn inv(&self) -> bool;

    /// Every buffer the queue has handed out so far, oldest first.
    spec fn delivered(&self) -> Seq<Mbuf>;

    /// How often the queue has been polled.
    spec fn polls(&self) -> nat;

    /// The burst that the next poll hands out. It may be empty.
    spec fn ready(&self) -> Seq<Mbuf>;

    /// Polls the queue once, without blocking. The burst may be empty.
    fn receive(&mut self) -> (burst: Vec<Mbuf>)
        requires
            old(self).inv(),
        ensures
            final(self).inv(),
            burst@ == old(self).ready(),
            final(self).delivered() == old(self).delivered() + burst@,
            final(self).polls() == old(self).polls() + 1,
    ;
}

/// The transmitting side of a port queue, together with the way back to the
/// memory pool that the port's buffers came from. A value of the queue stands
/// for the state of the ring at the moment of the next call.
pub trait PacketTx {
    /// Whether the queue is well formed.
    spec fn inv(&self) -> bool;

    /// Every buffer the queue has accepted for transmission, oldest first.
    spec fn sent(&self) -> Seq<Mbuf>;

    /// Every buffer given back to the memory pool, oldest first.
    spec fn released(&self) -> Seq<Mbuf>;

    /// Every buffer offered to the queue for transmission, accepted or not,
    /// oldest first.
    spec fn offered(&self) -> Seq<Mbuf>;

    /// How many buffers the queue accepts of `count` that are offered to it
    /// next.
    spec fn accepts(&self, count: nat) -> nat;

    /// Offers `packets` to the queue, which queues a prefix of them for
    /// transmission, and returns the length of that prefix. What the queue
    /// does not accept stays in `packets`.
    fn send(&mut self, packets: &mut Vec<Mbuf>) -> (count: usize)
        requires
            old(self).inv(),
        ensures
            final(self).inv(),
            count <= old(packets)@.len(),
            count == old(self).accepts(old(packets)@.len()),
            final(self).offered() == old(self).offered() + old(packets)@,
            final(self).sent() == old(self).sent() + old(packets)@.take(count as int),
            final(self).released() == old(self).released(),
            final(packets)@ == old(packets)@.skip(count as int),
    ;

    /// Gives `buffers` back to the memory pool.
    fn release(&mut self, buffers: Vec<Mbuf>)
        requires
            old(self).inv(),
        ensures
            final(self).inv(),
            final(self).offered() == old(self).offered(),
            final(self).sent() == old(self).sent(),
            final(self).released() == old(self).released() + buffers@,
            forall|count: nat| #[trigger] final(self).accepts(count) == old(self).accepts(count),
    ;
}

/// A receive queue held in memory. It hands out the buffers put into it in
/// bursts of bounded size.
pub struct MemoryRx {
    queue: VecDeque<Mbuf>,
    burst: usize,
    log: Ghost<Seq<Mbuf>>,
    polled: Ghost<nat>,
}

impl MemoryRx {
    /// The buffers waiting in the queue, oldest first.
    pub closed spec fn waiting(&self) -> Seq<Mbuf> {
        self.queue@
    }

    /// The most buffers one poll hands out.
    pub closed spec fn burst_size(&self) -> nat {
        self.burst as nat
    }

    /// An empty queue that hands out at most `burst` buffers per poll.
    pub fn new(burst: usize) -> (rx: MemoryRx)
        ensures
            rx.inv(),
            rx.waiting() == Seq::<Mbuf>::empty(),
            rx.delivered() == Seq::<Mbuf>::empty(),
            rx.polls() == 0,
            rx.burst_size() == burst,
    {
        MemoryRx { queue: VecDeque::new(), burst, log: Ghost(Seq::empty()), polled: Ghost(0) }
    }

    /// Puts `buffer` at the end of the queue.
    pub fn enqueue(&mut self, buffer: Mbuf)
        ensures
            final(self).waiting() == old(self).waiting().push(buffer),
            final(self).delivered() == old(self).delivered(),
            final(self).polls() == old(self).polls(),
            final(self).burst_size() == old(self).burst_size(),
    {
        self.queue.push_back(buffer);
    }

    /// How many buffers wait in the queue.
    pub fn len(&self) -> (len: usize)
        ensures
            len == self.waiting().len(),
    {
        self.queue.len()
    }
}

/// How many buffers a poll of a queue with `waiting` buffers hands out.
pub open spec fn burst_len(waiting: nat, burst: nat) -> nat {
    if waiting <= burst {
        waiting
    } else {
        burst
    }
}

impl PacketRx for MemoryRx {
    open spec fn inv(&self) -> bool {
        true
    }

    closed spec fn delivered(&self) -> Seq<Mbuf> {
        self.log@
    }

    closed spec fn polls(&self) -> nat {
        self.polled@
    }

    /// The oldest of the waiting buffers, as many as a burst holds.
    open spec fn ready(&self) -> Seq<Mbuf> {
        self.waiting().take(burst_len(self.waiting().len(), self.burst_size()) as int)
    }

    fn receive(&mut self) -> (burst: Vec<Mbuf>)
        ensures
            final(self).waiting() == old(self).waiting().skip(burst@.len() as int),
            final(self).burst_size() == old(self).burst_size(),
    {
        let mut burst: Vec<Mbuf> = Vec::new();
        let ghost before = self.queue@;
        while burst.len() < self.burst && self.queue.len() > 0
            invariant
                self.burst == old(self).burst,
                burst@.len() <= self.burst,
                burst@.len() <= before.len(),
                burst@ == before.take(burst@.len() as int),
                self.queue@ == before.skip(burst@.len() as int),
                self.log@ == old(self).log@,
                self.polled@ == old(self).polled@,
            decreases self.queue@.len(),
        {
            let front = self.queue.pop_front();
            match front {
                Some(buffer) => {
                    burst.push(buffer);
                },
                None => {},
            }
        }
        self.log = Ghost(self.log@ + burst@);
        self.polled = Ghost(self.polled@ + 1);
        burst
    }
}

/// A transmit queue held in memory. It accepts buffers until it holds as many
/// as its capacity, and keeps what was released to the memory pool.
pub struct MemoryTx {
    capacity: usize,
    sent: Vec<Mbuf>,
    released: Vec<Mbuf>,
    log: Ghost<Seq<Mbuf>>,
}

impl MemoryTx {
    /// How many buffers the queue accepts in all.
    pub closed spec fn capacity(&self) -> nat {
        self.capacity as nat
    }

    /// An empty queue that accepts `capacity` buffers in all.
    pub fn new(capacity: usize) -> (tx: MemoryTx)
        ensures
            tx.inv(),
            tx.capacity() == capacity,
            tx.sent() == Seq::<Mbuf>::empty(),
            tx.released() == Seq::<Mbuf>::empty(),
            tx.offered() == Seq::<Mbuf>::empty(),
    {
        MemoryTx { capacity, sent: Vec::new(), released: Vec::new(), log: Ghost(Seq::empty()) }
    }

    /// The buffers accepted for transmission, oldest first.
    pub fn transmitted(&self) -> (packets: &Vec<Mbuf>)
        ensures
            packets@ == self.sent(),
    {
        &self.sent
    }

    /// The buffers given back to the memory pool, oldest first.
    pub fn freed(&self) -> (buffers: &Vec<Mbuf>)
        ensures
            buffers@ == self.released(),
    {
        &self.released
    }
}

/// How many of `offered` buffers a queue accepts that has room for `room`.
pub open spec fn accepted(offered: nat, room: nat) -> nat {
    if offered <= room {
        offered
    } else {
        room
    }
}

impl PacketTx for MemoryTx {
    closed spec fn inv(&self) -> bool {
        self.sent@.len() <= self.capacity
    }

    closed spec fn sent(&self) -> Seq<Mbuf> {
        self.sent@
    }

    closed spec fn released(&self) -> Seq<Mbuf> {
        self.released@
    }

    closed spec fn offered(&self) -> Seq<Mbuf> {
        self.log@
    }

    /// As many as are offered, while there is room for them.
    open spec fn accepts(&self, count: nat) -> nat {
        accepted(count, (self.capacity() - self.sent().len()) as nat)
    }

    fn send(&mut self, packets: &mut Vec<Mbuf>) -> (count: usize)
        ensures
            final(self).capacity() == old(self).capacity(),
    {
        self.log = Ghost(self.log@ + packets@);
        let room = self.capacity - self.sent.len();
        let count = if packets.len() <= room {
            packets.len()
        } else {
            room
        };
        let mut rest = packets.split_off(count);
        self.sent.append(packets);
        packets.append(&mut rest);
        count
    }

    fn release(&mut self, buffers: Vec<Mbuf>)
        ensures
            final(self).capacity() == old(self).capacity(),
    {
        let mut buffers = buffers;
        self.released.append(&mut buffers);
    }
}

} // verus!
