use std::cell::Cell;

use packet_pipeline::batch::Batch;
use packet_pipeline::error::{Fault, PacketError};
use packet_pipeline::ether_type::EtherTypes;
use packet_pipeline::mbuf::Mbuf;
use packet_pipeline::packet::{Ethernet, Packet};
use packet_pipeline::packet_batch::PacketBatch;
use packet_pipeline::queue::MemoryRx;
use packet_pipeline::receive_batch::ReceiveBatch;

const UDP_PACKET: [u8; 52] = [
    // ethernet header
    0x00, 0x00, 0x00, 0x00, 0x00, 0x01, 0x00, 0x00, 0x00, 0x00, 0x00, 0x02, 0x08, 0x00,
    // IPv4 header
    0x45, 0x00, 0x00, 0x26, 0xab, 0x49, 0x40, 0x00, 0xff, 0x11, 0xf7, 0x00, 0x8b, 0x85, 0xd9, 0x6e,
    0x8b, 0x85, 0xe9, 0x02,
    // UDP header
    0x99, 0xd0, 0x04, 0x3f, 0x00, 0x12, 0x72, 0x28,
    // UDP payload
    0x68, 0x65, 0x6c, 0x6c, 0x6f, 0x68, 0x65, 0x6c, 0x6c, 0x6f,
];

fn rx_with(ids: &[u64], burst: usize) -> MemoryRx {
    let mut rx = MemoryRx::new(burst);
    for id in ids {
        rx.enqueue(Mbuf::from_bytes(*id, &[*id as u8, 0xaa]));
    }
    rx
}

#[test]
fn filter_operator() {
    let mut batch = PacketBatch::new(&UDP_PACKET).filter(|_| false);
    assert!(batch.next().unwrap().is_err());
}

#[test]
fn map_operator() {
    let mut batch = PacketBatch::new(&UDP_PACKET).map(|p| p.parse::<Ethernet>());
    let packet = batch.next().unwrap().unwrap();

    assert_eq!(EtherTypes::Ipv4, packet.ether_type())
}

#[test]
fn packet_batch_yields_its_packet_once() {
    let mut batch = PacketBatch::new(&UDP_PACKET);
    let packet = batch.next().unwrap().unwrap();
    assert_eq!(packet.handle(), 0);
    assert_eq!(packet.data(), &UDP_PACKET[..]);
    assert_eq!(packet.data_len(), 52);
    assert!(batch.next().is_none());
    assert!(batch.next().is_none());
    batch.receive();
    assert!(batch.next().is_none());
}

#[test]
fn filter_rejects_into_drop_that_owns_the_buffer() {
    let mut batch = PacketBatch::new(&UDP_PACKET).filter(|_| false);
    match batch.next() {
        Some(Err(PacketError::Drop(buffer))) => {
            assert_eq!(buffer.handle(), 0);
            assert_eq!(buffer.data(), &UDP_PACKET[..]);
        }
        other => panic!("expected a drop, got {:?}", other),
    }
    assert!(batch.next().is_none());
}

#[test]
fn filter_accepts_unchanged() {
    let mut batch = PacketBatch::new(&UDP_PACKET).filter(|p: &Mbuf| p.data_len() == 52);
    let packet = batch.next().unwrap().unwrap();
    assert_eq!(packet.handle(), 0);
    assert_eq!(packet.data(), &UDP_PACKET[..]);
}

#[test]
fn next_after_exhaustion_stays_none() {
    let mut batch = PacketBatch::new(&UDP_PACKET).filter(|_| true).map(|p: Mbuf| Ok::<Mbuf, Fault>(p));
    assert!(batch.next().unwrap().is_ok());
    assert!(batch.next().is_none());
    assert!(batch.next().is_none());
    assert!(batch.next().is_none());
}

#[test]
fn filter_yields_ok_drop_ok_in_order() {
    let mut batch = ReceiveBatch::new(rx_with(&[1, 2, 3], 32)).filter(|p: &Mbuf| p.handle() != 2);
    batch.receive();
    assert_eq!(batch.next().unwrap().unwrap().handle(), 1);
    match batch.next() {
        Some(Err(PacketError::Drop(buffer))) => assert_eq!(buffer.handle(), 2),
        other => panic!("expected a drop, got {:?}", other),
    }
    assert_eq!(batch.next().unwrap().unwrap().handle(), 3);
    assert!(batch.next().is_none());
}

#[test]
fn errors_bypass_later_predicates_and_transforms() {
    let seen_by_filter = Cell::new(0u32);
    let seen_by_map = Cell::new(0u32);
    let mut batch = ReceiveBatch::new(rx_with(&[1, 2, 3], 32))
        .filter(|p: &Mbuf| p.handle() == 2)
        .filter(|_| {
            seen_by_filter.set(seen_by_filter.get() + 1);
            true
        })
        .map(|p: Mbuf| {
            seen_by_map.set(seen_by_map.get() + 1);
            Ok::<Mbuf, Fault>(p)
        });
    batch.receive();
    match batch.next() {
        Some(Err(PacketError::Drop(buffer))) => assert_eq!(buffer.handle(), 1),
        other => panic!("expected a drop, got {:?}", other),
    }
    assert_eq!(batch.next().unwrap().unwrap().handle(), 2);
    match batch.next() {
        Some(Err(PacketError::Drop(buffer))) => assert_eq!(buffer.handle(), 3),
        other => panic!("expected a drop, got {:?}", other),
    }
    assert!(batch.next().is_none());
    assert_eq!(seen_by_filter.get(), 1);
    assert_eq!(seen_by_map.get(), 1);
}

#[test]
fn map_failure_becomes_abort_that_owns_the_buffer() {
    let short = [0x01u8, 0x02, 0x03, 0x04, 0x05];
    let mut batch = PacketBatch::new(&short).map(|p| p.parse::<Ethernet>());
    match batch.next() {
        Some(Err(PacketError::Abort(buffer, cause))) => {
            assert_eq!(buffer.handle(), 0);
            assert_eq!(buffer.data(), &short[..]);
            assert_eq!(format!("{}", cause), "buffer too short for an Ethernet header");
        }
        other => panic!("expected an abort, got {:?}", other),
    }
    assert!(batch.next().is_none());
}

#[test]
fn map_success_keeps_the_buffer() {
    let mut batch = PacketBatch::new(&UDP_PACKET).map(|p| p.parse::<Ethernet>());
    let packet = batch.next().unwrap().unwrap();
    assert_eq!(packet.mbuf().handle(), 0);
    assert_eq!(packet.mbuf().data(), &UDP_PACKET[..]);
    let buffer = packet.reset();
    assert_eq!(buffer.data(), &UDP_PACKET[..]);
}

#[test]
fn parse_needs_a_whole_header() {
    let thirteen = [0u8; 13];
    assert!(Mbuf::from_bytes(4, &thirteen).parse::<Ethernet>().is_err());
    let fourteen = [0u8, 0, 0, 0, 0, 0, 0, 0, 0, 0, 0, 0, 0x86, 0xdd];
    let frame = Mbuf::from_bytes(5, &fourteen).parse::<Ethernet>().unwrap();
    assert_eq!(frame.ether_type(), EtherTypes::Ipv6);
    let fault = Mbuf::from_bytes(6, &[]).parse::<Ethernet>().unwrap_err();
    assert_eq!(fault.buffer.handle(), 6);
    assert_eq!(fault.buffer.data_len(), 0);
}

#[test]
fn ether_types_by_number() {
    assert_eq!(EtherTypes::from_number(0x0800), EtherTypes::Ipv4);
    assert_eq!(EtherTypes::from_number(0x0806), EtherTypes::Arp);
    assert_eq!(EtherTypes::from_number(0x86dd), EtherTypes::Ipv6);
    assert_eq!(EtherTypes::from_number(0x8847), EtherTypes::Other(0x8847));
    assert_ne!(EtherTypes::from_number(0x8847), EtherTypes::Other(0x8848));
    assert_ne!(EtherTypes::Ipv4, EtherTypes::Ipv6);
    let frame = [0u8, 0, 0, 0, 0, 0, 0, 0, 0, 0, 0, 0, 0x12, 0x34];
    let packet = Mbuf::from_bytes(1, &frame).parse::<Ethernet>().unwrap();
    assert_eq!(packet.ether_type(), EtherTypes::Other(0x1234));
}

#[test]
fn mbuf_holds_what_it_was_given() {
    let buffer = Mbuf::new(77, vec![9, 8, 7]);
    assert_eq!(buffer.handle(), 77);
    assert_eq!(buffer.data_len(), 3);
    assert_eq!(buffer.data(), &[9u8, 8, 7][..]);
    let copy = Mbuf::from_bytes(78, &[1, 2]);
    assert_eq!(copy.handle(), 78);
    assert_eq!(copy.data(), &[1u8, 2][..]);
    let error = PacketError::Drop(copy);
    assert_eq!(error.into_mbuf().handle(), 78);
}

#[test]
fn operators_made_by_new_behave_like_those_made_by_the_batch() {
    let mut filter = packet_pipeline::filter_batch::FilterBatch::new(
        PacketBatch::new(&UDP_PACKET),
        |p: &Mbuf| p.data_len() > 100,
    );
    match filter.next() {
        Some(Err(PacketError::Drop(buffer))) => assert_eq!(buffer.data(), &UDP_PACKET[..]),
        other => panic!("expected a drop, got {:?}", other),
    }
    let mut map = packet_pipeline::map_batch::MapBatch::new(PacketBatch::new(&UDP_PACKET), |p: Mbuf| {
        p.parse::<Ethernet>()
    });
    assert_eq!(map.next().unwrap().unwrap().ether_type(), EtherTypes::Ipv4);
    assert!(map.next().is_none());
}

#[test]
fn receive_begins_a_fresh_cycle() {
    let mut batch = ReceiveBatch::new(rx_with(&[1, 2, 3], 2)).filter(|_| true);
    assert!(batch.next().is_none());
    batch.receive();
    assert_eq!(batch.next().unwrap().unwrap().handle(), 1);
    assert_eq!(batch.next().unwrap().unwrap().handle(), 2);
    assert!(batch.next().is_none());
    batch.receive();
    assert_eq!(batch.next().unwrap().unwrap().handle(), 3);
    assert!(batch.next().is_none());
    batch.receive();
    assert!(batch.next().is_none());
    assert!(batch.next().is_none());
}
