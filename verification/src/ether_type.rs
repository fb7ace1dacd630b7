//! The protocol numbers of the Ethernet header.

use vstd::prelude::*;
use vstd::std_specs::cmp::PartialEqSpecImpl;

verus! {

/// The protocol of the payload of an Ethernet frame.
#[derive(Clone, Copy, Debug)]
pub enum EtherTypes {
    /// Address resolution, 0x0806.
    Arp,
    /// Internet protocol version 4, 0x0800.
    Ipv4,
    /// Internet protocol version 6, 0x86DD.
    Ipv6,
    /// Any other protocol, by its number.
    Other(u16),
}

impl EtherTypes {
    /// The protocol with the number `number`.
    pub open spec fn of(number: u16) -> EtherTypes {
        if number == 0x0806 {
            EtherTypes::Arp
        } else if number == 0x0800 {
            EtherTypes::Ipv4
        } else if number == 0x86DD {
            EtherTypes::Ipv6
        } else {
            EtherTypes::Other(number)
        }
    }

    /// The protocol with the number `number`.
    pub fn from_number(number: u16) -> (protocol: EtherTypes)
        ensures
            protocol == EtherTypes::of(number),
    {
        if number == 0x0806 {
            EtherTypes::Arp
        } else if number == 0x0800 {
            EtherTypes::Ipv4
        } else if number == 0x86DD {
            EtherTypes::Ipv6
        } else {
            EtherTypes::Other(number)
        }
    }
}

impl PartialEq for EtherTypes {
    fn eq(&self, other: &EtherTypes) -> (equal: bool) {
        match (*self, *other) {
            (EtherTypes::Arp, EtherTypes::Arp) => true,
            (EtherTypes::Ipv4, EtherTypes::Ipv4) => true,
            (EtherTypes::Ipv6, EtherTypes::Ipv6) => true,
            (EtherTypes::Other(a), EtherTypes::Other(b)) => a == b,
            _ => false,
        }
    }
}

impl Eq for EtherTypes {

}

impl PartialEqSpecImpl for EtherTypes {
    open spec fn obeys_eq_spec() -> bool {
        true
    }

    open spec fn eq_spec(&self, other: &EtherTypes) -> bool {
        *self == *other
    }
}

} // verus!
