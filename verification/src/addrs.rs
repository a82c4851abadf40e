//! Plain address types shared by the cache, the classifier and the engine:
//! a six-octet Ethernet MAC address, and an interface address that is
//! either IPv4 (as a 32-bit value in network order) or IPv6.

use vstd::prelude::*;

verus! {

/// A six-octet Ethernet MAC address.
#[derive(Clone, Copy, PartialEq, Eq, Structural, Debug)]
pub struct MacAddress {
    pub o0: u8,
    pub o1: u8,
    pub o2: u8,
    pub o3: u8,
    pub o4: u8,
    pub o5: u8,
}

impl MacAddress {
    /// The six octets, in wire order.
    pub open spec fn octets(self) -> Seq<u8> {
        seq![self.o0, self.o1, self.o2, self.o3, self.o4, self.o5]
    }

    pub fn new(o0: u8, o1: u8, o2: u8, o3: u8, o4: u8, o5: u8) -> (m: MacAddress)
        ensures
            m.octets() == seq![o0, o1, o2, o3, o4, o5],
    {
        MacAddress { o0, o1, o2, o3, o4, o5 }
    }
}

/// One address assigned to a network interface.
#[derive(Clone, Copy, PartialEq, Eq, Structural, Debug)]
pub enum InterfaceAddress {
    /// An IPv4 address, as a 32-bit value in network order.
    V4(u32),
    /// An IPv6 address; the engine never routes these, so the bits are not
    /// carried.
    V6,
}

} // verus!
