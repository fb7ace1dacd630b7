use packet_pipeline::batch::Batch;
use packet_pipeline::error::Fault;
use packet_pipeline::mbuf::Mbuf;
use packet_pipeline::packet::{Ethernet, Packet};
use packet_pipeline::packet_batch::PacketBatch;
use packet_pipeline::queue::{queue_of, MemoryRx, MemoryTx, PacketRx, PacketTx};
use packet_pipeline::receive_batch::ReceiveBatch;
use packet_pipeline::send_batch::SendBatch;

fn rx_of(ids: &[u64], burst: usize) -> MemoryRx {
    let mut rx = MemoryRx::new(burst);
    for id in ids {
        rx.enqueue(Mbuf::from_bytes(*id, &[*id as u8]));
    }
    rx
}

fn handles(buffers: &Vec<Mbuf>) -> Vec<u64> {
    let mut ids = Vec::new();
    for buffer in buffers {
        ids.push(buffer.handle());
    }
    ids
}

#[test]
fn three_buffers_one_rejected() {
    let mut pipeline = ReceiveBatch::new(rx_of(&[1, 2, 3], 32))
        .filter(|p: &Mbuf| p.handle() != 2)
        .send(MemoryTx::new(16));
    let report = pipeline.execute();
    assert_eq!(report.transmitted, 2);
    assert_eq!(report.unsent, 0);
    assert_eq!(report.dropped, 1);
    assert_eq!(report.aborted.len(), 0);
    assert_eq!(handles(pipeline.port.transmitted()), vec![1, 3]);
    assert_eq!(handles(pipeline.port.freed()), vec![2]);
}

#[test]
fn every_buffer_is_sent_or_released_once() {
    let ids: Vec<u64> = vec![10, 11, 12, 13, 14, 15, 16];
    let mut pipeline = ReceiveBatch::new(rx_of(&ids, 32))
        .filter(|p: &Mbuf| p.handle() % 3 != 0)
        .map(|p: Mbuf| {
            if p.handle() == 13 {
                p.parse::<Ethernet>().map(|e| e.reset())
            } else {
                Ok::<Mbuf, Fault>(p)
            }
        })
        .send(MemoryTx::new(2));
    let report = pipeline.execute();
    // 12 and 15 are dropped, 13 is aborted, 10 and 11 are sent, 14 and 16 find the queue full
    assert_eq!(report.transmitted, 2);
    assert_eq!(report.unsent, 2);
    assert_eq!(report.dropped, 2);
    assert_eq!(report.aborted.len(), 1);
    assert_eq!(format!("{}", report.aborted[0]), "buffer too short for an Ethernet header");
    assert_eq!(handles(pipeline.port.transmitted()), vec![10, 11]);
    assert_eq!(handles(pipeline.port.freed()), vec![12, 13, 15, 14, 16]);
    let mut all = handles(pipeline.port.transmitted());
    all.extend(handles(pipeline.port.freed()));
    all.sort();
    assert_eq!(all, ids);
    assert_eq!(report.transmitted + report.unsent + report.dropped + report.aborted.len(), ids.len());
}

#[test]
fn survivors_are_sent_in_the_order_received() {
    let mut pipeline = ReceiveBatch::new(rx_of(&[9, 4, 7, 2, 8, 1], 32))
        .filter(|p: &Mbuf| p.handle() > 3)
        .map(|p: Mbuf| Ok::<Mbuf, Fault>(p))
        .send(MemoryTx::new(16));
    let report = pipeline.execute();
    assert_eq!(report.transmitted, 4);
    assert_eq!(handles(pipeline.port.transmitted()), vec![9, 4, 7, 8]);
    assert_eq!(handles(pipeline.port.freed()), vec![2, 1]);
}

#[test]
fn each_cycle_sends_only_what_it_received() {
    let mut pipeline = ReceiveBatch::new(rx_of(&[1, 2, 3, 4, 5], 2)).send(MemoryTx::new(16));
    let first = pipeline.execute();
    assert_eq!(first.transmitted, 2);
    assert_eq!(handles(pipeline.port.transmitted()), vec![1, 2]);
    let second = pipeline.execute();
    assert_eq!(second.transmitted, 2);
    assert_eq!(handles(pipeline.port.transmitted()), vec![1, 2, 3, 4]);
    let third = pipeline.execute();
    assert_eq!(third.transmitted, 1);
    assert_eq!(handles(pipeline.port.transmitted()), vec![1, 2, 3, 4, 5]);
    let fourth = pipeline.execute();
    assert_eq!(fourth.transmitted, 0);
    assert_eq!(fourth.unsent + fourth.dropped + fourth.aborted.len(), 0);
    assert_eq!(handles(pipeline.port.transmitted()), vec![1, 2, 3, 4, 5]);
    assert_eq!(pipeline.port.freed().len(), 0);
}

#[test]
fn send_takes_a_batch_with_a_packet_in_hand() {
    let mut pipeline = PacketBatch::new(&[7, 8, 9]).send(MemoryTx::new(4));
    let report = pipeline.flush();
    assert_eq!(report.transmitted, 1);
    assert_eq!(report.unsent + report.dropped + report.aborted.len(), 0);
    assert_eq!(pipeline.port.transmitted().len(), 1);
    assert_eq!(pipeline.port.transmitted()[0].data(), &[7u8, 8, 9][..]);
    let next = pipeline.execute();
    assert_eq!(next.transmitted, 0);
    assert_eq!(pipeline.port.transmitted().len(), 1);
}

#[test]
fn queue_of_keeps_the_order() {
    let queue = queue_of(vec![3u8, 1, 2]);
    assert_eq!(queue.len(), 3);
    assert_eq!(queue[0], 3);
    assert_eq!(queue[1], 1);
    assert_eq!(queue[2], 2);
    assert_eq!(queue_of(Vec::<u8>::new()).len(), 0);
}

#[test]
fn empty_poll_does_nothing() {
    let mut pipeline = SendBatch::new(ReceiveBatch::new(MemoryRx::new(8)), MemoryTx::new(8));
    let report = pipeline.execute();
    assert_eq!(report.transmitted, 0);
    assert_eq!(report.unsent, 0);
    assert_eq!(report.dropped, 0);
    assert_eq!(report.aborted.len(), 0);
    assert_eq!(pipeline.port.transmitted().len(), 0);
    assert_eq!(pipeline.port.freed().len(), 0);
}

#[test]
fn full_queue_releases_what_it_does_not_take() {
    let mut pipeline = ReceiveBatch::new(rx_of(&[1, 2, 3], 32)).send(MemoryTx::new(0));
    let report = pipeline.execute();
    assert_eq!(report.transmitted, 0);
    assert_eq!(report.unsent, 3);
    assert_eq!(handles(pipeline.port.freed()), vec![1, 2, 3]);
    assert_eq!(pipeline.port.transmitted().len(), 0);
}

#[test]
fn memory_rx_hands_out_bursts() {
    let mut rx = rx_of(&[1, 2, 3, 4, 5], 2);
    assert_eq!(rx.len(), 5);
    assert_eq!(handles(&rx.receive()), vec![1, 2]);
    assert_eq!(rx.len(), 3);
    assert_eq!(handles(&rx.receive()), vec![3, 4]);
    assert_eq!(handles(&rx.receive()), vec![5]);
    assert_eq!(rx.receive().len(), 0);
    let mut none = rx_of(&[1], 0);
    assert_eq!(none.receive().len(), 0);
    assert_eq!(none.len(), 1);
}

#[test]
fn memory_tx_takes_a_prefix() {
    let mut tx = MemoryTx::new(3);
    let mut first = vec![Mbuf::from_bytes(1, &[]), Mbuf::from_bytes(2, &[])];
    assert_eq!(tx.send(&mut first), 2);
    assert_eq!(first.len(), 0);
    let mut second = vec![Mbuf::from_bytes(3, &[]), Mbuf::from_bytes(4, &[]), Mbuf::from_bytes(5, &[])];
    assert_eq!(tx.send(&mut second), 1);
    assert_eq!(handles(&second), vec![4, 5]);
    assert_eq!(handles(tx.transmitted()), vec![1, 2, 3]);
    tx.release(second);
    assert_eq!(handles(tx.freed()), vec![4, 5]);
    let mut third = vec![Mbuf::from_bytes(6, &[])];
    assert_eq!(tx.send(&mut third), 0);
    assert_eq!(handles(&third), vec![6]);
}

#[test]
fn flush_ends_a_cycle_begun_by_hand() {
    let mut pipeline = ReceiveBatch::new(rx_of(&[1, 2, 3], 32)).send(MemoryTx::new(16));
    pipeline.source.receive();
    assert_eq!(pipeline.source.next().unwrap().unwrap().handle(), 1);
    let report = pipeline.flush();
    assert_eq!(report.transmitted, 2);
    assert_eq!(handles(pipeline.port.transmitted()), vec![2, 3]);
    assert_eq!(pipeline.take_reports().len(), 0);
    assert_eq!(pipeline.source.rx().len(), 0);
}
