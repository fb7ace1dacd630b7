use packet_pipeline::batch::Batch;
use packet_pipeline::bridge::{Bridge, Feed};
use packet_pipeline::error::PacketError;
use packet_pipeline::ether_type::EtherTypes;
use packet_pipeline::group::Group;
use packet_pipeline::group_by::{find_lane, unzip, GroupByBatch};
use packet_pipeline::mbuf::Mbuf;
use packet_pipeline::packet::{Ethernet, Packet};
use packet_pipeline::queue::{MemoryRx, MemoryTx};
use packet_pipeline::receive_batch::ReceiveBatch;

fn frame(ether_type: u16, tag: u8) -> [u8; 15] {
    [
        0, 0, 0, 0, 0, 1, 0, 0, 0, 0, 0, 2,
        (ether_type >> 8) as u8,
        (ether_type & 0xff) as u8,
        tag,
    ]
}

fn frames(kinds: &[(u64, u16)]) -> MemoryRx {
    let mut rx = MemoryRx::new(32);
    for (id, ether_type) in kinds {
        rx.enqueue(Mbuf::from_bytes(*id, &frame(*ether_type, *id as u8)));
    }
    rx
}

fn lane_without(id: u64) -> impl Group<Item = Ethernet> {
    Bridge::<Ethernet>::new().filter(move |e: &Ethernet| e.mbuf().handle() != id)
}

fn ids_of(buffers: &Vec<Mbuf>) -> Vec<u64> {
    let mut ids = Vec::new();
    for buffer in buffers {
        ids.push(buffer.handle());
    }
    ids
}

#[test]
fn two_ipv4_and_one_other() {
    let ipv4 = Bridge::<Ethernet>::new().send(MemoryTx::new(16));
    let mut pipeline = ReceiveBatch::new(frames(&[(1, 0x0800), (2, 0x0806), (3, 0x0800)]))
        .map(|p: Mbuf| p.parse::<Ethernet>())
        .group_by(|e: &Ethernet| e.ether_type(), vec![(EtherTypes::Ipv4, ipv4)])
        .send(MemoryTx::new(16));
    let report = pipeline.execute();
    // the IPv4 packets went to the IPv4 sub-pipeline, in order
    assert_eq!(ids_of(pipeline.source.groups[0].port.transmitted()), vec![1, 3]);
    // the other packet took the fallback path and was yielded downstream
    assert_eq!(report.transmitted, 1);
    assert_eq!(ids_of(pipeline.port.transmitted()), vec![2]);
    assert_eq!(pipeline.port.freed().len(), 0);
    let reports = pipeline.source.groups[0].take_reports();
    assert_eq!(reports.len(), 1);
    assert_eq!(reports[0].transmitted, 2);
    assert_eq!(reports[0].unsent + reports[0].dropped + reports[0].aborted.len(), 0);
}

#[test]
fn sub_pipeline_results_rejoin_the_output() {
    let ipv4 = lane_without(3);
    let arp = lane_without(0);
    let mut batch = ReceiveBatch::new(
        frames(&[(1, 0x0800), (2, 0x0806), (3, 0x0800), (4, 0x86dd), (5, 0x0800)]),
    )
        .map(|p: Mbuf| p.parse::<Ethernet>())
        .group_by(
            |e: &Ethernet| e.ether_type(),
            vec![(EtherTypes::Ipv4, ipv4), (EtherTypes::Arp, arp)],
        );
    batch.receive();
    // what bypasses the sub-pipelines comes first
    assert_eq!(batch.next().unwrap().unwrap().mbuf().handle(), 4);
    // then the IPv4 lane, in order
    assert_eq!(batch.next().unwrap().unwrap().mbuf().handle(), 1);
    match batch.next() {
        Some(Err(PacketError::Drop(buffer))) => assert_eq!(buffer.handle(), 3),
        other => panic!("expected a drop, got {:?}", other),
    }
    assert_eq!(batch.next().unwrap().unwrap().mbuf().handle(), 5);
    // then the ARP lane
    assert_eq!(batch.next().unwrap().unwrap().mbuf().handle(), 2);
    assert!(batch.next().is_none());
    assert!(batch.next().is_none());
    batch.receive();
    assert!(batch.next().is_none());
}

#[test]
fn errors_bypass_the_classifier() {
    let calls = std::cell::Cell::new(0u32);
    let lane = Bridge::<Mbuf>::new().send(MemoryTx::new(16));
    let mut rx = MemoryRx::new(32);
    for id in [1u64, 2, 3] {
        rx.enqueue(Mbuf::from_bytes(id, &[id as u8]));
    }
    let mut pipeline = ReceiveBatch::new(rx)
        .filter(|p: &Mbuf| p.handle() != 2)
        .group_by(
            |p: &Mbuf| {
                calls.set(calls.get() + 1);
                p.handle()
            },
            vec![(1u64, lane)],
        )
        .send(MemoryTx::new(16));
    let report = pipeline.execute();
    assert_eq!(calls.get(), 2);
    assert_eq!(report.transmitted, 1);
    assert_eq!(report.dropped, 1);
    assert_eq!(ids_of(pipeline.port.transmitted()), vec![3]);
    assert_eq!(ids_of(pipeline.port.freed()), vec![2]);
    assert_eq!(ids_of(pipeline.source.groups[0].port.transmitted()), vec![1]);
}

#[test]
fn group_by_conserves_buffers_over_cycles() {
    let odd = Bridge::<Mbuf>::new().filter(|p: &Mbuf| p.handle() != 5).send(MemoryTx::new(1));
    let mut rx = MemoryRx::new(4);
    for id in 1u64..=7 {
        rx.enqueue(Mbuf::from_bytes(id, &[id as u8]));
    }
    let mut pipeline = ReceiveBatch::new(rx)
        .group_by(|p: &Mbuf| p.handle() % 2, vec![(1u64, odd)])
        .send(MemoryTx::new(16));
    let first = pipeline.execute();
    // 1 and 3 go to the odd lane, whose port takes one buffer in all; 2 and 4 bypass
    assert_eq!(first.transmitted, 2);
    assert_eq!(ids_of(pipeline.port.transmitted()), vec![2, 4]);
    assert_eq!(ids_of(pipeline.source.groups[0].port.transmitted()), vec![1]);
    assert_eq!(ids_of(pipeline.source.groups[0].port.freed()), vec![3]);
    let second = pipeline.execute();
    assert_eq!(second.transmitted, 1);
    assert_eq!(ids_of(pipeline.port.transmitted()), vec![2, 4, 6]);
    assert_eq!(ids_of(pipeline.source.groups[0].port.transmitted()), vec![1]);
    assert_eq!(ids_of(pipeline.source.groups[0].port.freed()), vec![3, 5, 7]);
    let reports = pipeline.source.groups[0].take_reports();
    assert_eq!(reports.len(), 2);
    assert_eq!(reports[0].transmitted, 1);
    assert_eq!(reports[0].unsent, 1);
    assert_eq!(reports[1].transmitted, 0);
    assert_eq!(reports[1].dropped, 1);
    assert_eq!(reports[1].unsent, 1);
}

#[test]
fn first_binding_of_a_key_wins() {
    let keys = vec![7u64, 9, 7, 3];
    assert_eq!(find_lane(&keys, &7), 0);
    assert_eq!(find_lane(&keys, &9), 1);
    assert_eq!(find_lane(&keys, &3), 3);
    assert_eq!(find_lane(&keys, &4), 4);
    assert_eq!(find_lane(&Vec::<u64>::new(), &4), 0);
    let (left, right) = unzip(vec![(1u8, 'a'), (2, 'b'), (3, 'c')]);
    assert_eq!(left, vec![1, 2, 3]);
    assert_eq!(right, vec!['a', 'b', 'c']);
}

#[test]
fn bridge_yields_what_it_is_fed() {
    let mut bridge = Bridge::<Mbuf>::new();
    assert!(bridge.next().is_none());
    bridge.feed(vec![Mbuf::from_bytes(1, &[1]), Mbuf::from_bytes(2, &[2])]);
    assert_eq!(bridge.next().unwrap().unwrap().handle(), 1);
    assert_eq!(bridge.next().unwrap().unwrap().handle(), 2);
    assert!(bridge.next().is_none());
    bridge.receive();
    assert!(bridge.next().is_none());
}

#[test]
fn dispatch_tells_the_fate_of_each_packet() {
    let mut chain = Bridge::<Mbuf>::new().filter(|p: &Mbuf| p.handle() == 2);
    let fates = chain.dispatch(vec![Mbuf::from_bytes(1, &[]), Mbuf::from_bytes(2, &[])]);
    assert_eq!(fates.len(), 2);
    assert!(matches!(&fates[0], Some(Err(PacketError::Drop(buffer))) if buffer.handle() == 1));
    assert!(matches!(&fates[1], Some(Ok(buffer)) if buffer.handle() == 2));
    let mut terminal = Bridge::<Mbuf>::new().send(MemoryTx::new(16));
    let fates = terminal.dispatch(vec![Mbuf::from_bytes(3, &[]), Mbuf::from_bytes(4, &[])]);
    assert_eq!(fates.len(), 2);
    assert!(fates[0].is_none());
    assert!(fates[1].is_none());
    assert_eq!(ids_of(terminal.port.transmitted()), vec![3, 4]);
}

#[test]
fn group_by_new_starts_at_rest() {
    let lanes: Vec<Bridge<Mbuf>> = vec![Bridge::new()];
    let mut batch = GroupByBatch::new(
        ReceiveBatch::new(MemoryRx::new(4)),
        |p: &Mbuf| p.handle(),
        vec![0u64],
        lanes,
    );
    assert!(batch.next().is_none());
    batch.receive();
    assert!(batch.next().is_none());
}
