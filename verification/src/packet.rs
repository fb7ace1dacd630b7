//! Typed views of packet buffers.

use vstd::prelude::*;
use crate::error::Fault;
use crate::ether_type::EtherTypes;
use crate::mbuf::Mbuf;

verus! {

/// A typed view of a packet buffer. The view owns the buffer it interprets.
pub trait Packet: Sized {
    /// The buffer under the view.
    spec fn buffer(&self) -> Mbuf;

    /// The buffer under the view.
    fn mbuf(&self) -> (buffer: &Mbuf)
        ensures
            *buffer == self.buffer(),
    ;

    /// Gives up the view and returns the buffer under it.
    fn reset(self) -> (buffer: Mbuf)
        ensures
            buffer == self.buffer(),
    ;
}

impl Packet for Mbuf {
    open spec fn buffer(&self) -> Mbuf {
        *self
    }

    fn mbuf(&self) -> (buffer: &Mbuf) {
        self
    }

    fn reset(self) -> (buffer: Mbuf) {
        self
    }
}

/// A typed view that can be had from a raw buffer.
pub trait Parse: Packet {
    /// Whether `envelope` holds a packet of this type.
    spec fn parses(envelope: Mbuf) -> bool;

    /// Interprets `envelope` as a packet of this type. The view is laid over
    /// the buffer as it is, and a failure hands the buffer back.
    fn try_parse(envelope: Mbuf) -> (result: Result<Self, Fault>)
        ensures
            match result {
                Ok(packet) => Self::parses(envelope) && packet.buffer() == envelope,
                Err(fault) => !Self::parses(envelope) && fault.buffer == envelope,
            },
    ;
}

impl Mbuf {
    /// Interprets the buffer as a packet of the type `T`.
    pub fn parse<T: Parse>(self) -> (result: Result<T, Fault>)
        ensures
            match result {
                Ok(packet) => T::parses(self) && packet.buffer() == self,
                Err(fault) => !T::parses(self) && fault.buffer == self,
            },
    {
        T::try_parse(self)
    }
}

/// `failure::err_msg`: makes a diagnostic that carries `message`. The value
/// is opaque here, so nothing is claimed of it.
#[verifier::external_body]
fn diagnostic(message: &'static str) -> failure::Error {
    failure::err_msg(message)
}

/// The length of an Ethernet header without tags.
pub const ETHERNET_HEADER_LEN: usize = 14;

/// The protocol number in the Ethernet header at the start of `bytes`.
pub open spec fn ether_type_of(bytes: Seq<u8>) -> EtherTypes {
    EtherTypes::of((bytes[12] * 256 + bytes[13]) as u16)
}

/// An Ethernet frame.
#[derive(Debug)]
pub struct Ethernet {
    envelope: Mbuf,
}

impl Ethernet {
    /// The buffer under an Ethernet frame holds a whole header.
    #[verifier::type_invariant]
    spec fn holds_header(self) -> bool {
        self.envelope@.len() >= ETHERNET_HEADER_LEN
    }

    /// The protocol of the payload.
    pub fn ether_type(&self) -> (protocol: EtherTypes)
        ensures
            self.buffer()@.len() >= ETHERNET_HEADER_LEN,
            protocol == ether_type_of(self.buffer()@),
    {
        proof {
            use_type_invariant(self);
        }
        let bytes = self.envelope.data();
        let high: u16 = bytes[12] as u16;
        let low: u16 = bytes[13] as u16;
        EtherTypes::from_number(high * 256 + low)
    }
}

impl Packet for Ethernet {
    closed spec fn buffer(&self) -> Mbuf {
        self.envelope
    }

    fn mbuf(&self) -> (buffer: &Mbuf) {
        &self.envelope
    }

    fn reset(self) -> (buffer: Mbuf) {
        self.envelope
    }
}

impl Parse for Ethernet {
    open spec fn parses(envelope: Mbuf) -> bool {
        envelope@.len() >= ETHERNET_HEADER_LEN
    }

    fn try_parse(envelope: Mbuf) -> (result: Result<Ethernet, Fault>) {
        if envelope.data_len() >= ETHERNET_HEADER_LEN {
            Ok(Ethernet { envelope })
        } else {
            Err(Fault { buffer: envelope, cause: diagnostic("buffer too short for an Ethernet header") })
        }
    }
}

} // verus!
