//! The error taxonomy of the forwarder.

use vstd::prelude::*;

verus! {

/// Everything that can go wrong while forwarding: a transport failure on the
/// ring descriptors, an I/O failure of the readiness primitive, a frame that
/// does not parse, an interface without an IPv4 address, or configuration
/// that is absent or malformed.  The I/O-flavoured variants are raised by the
/// unverified edges of the program; the library itself produces `BadPacket`,
/// `NoIPV4Address` and `MissingConfiguration`.
#[derive(Debug, Clone, Copy, PartialEq, Eq, Structural)]
pub enum BrokenRail {
    Netmap,
    IO,
    BadPacket,
    NoIPV4Address,
    MissingConfiguration,
}

impl BrokenRail {
    /// A short human-readable description of the error.
    pub fn message(&self) -> (r: &'static str)
        ensures
            *self is BadPacket ==> r@ == "Couldn't handle packet"@,
            *self is NoIPV4Address ==> r@ == "No IPV4 address on interface"@,
    {
        match *self {
            BrokenRail::Netmap => "Ring descriptor failure",
            BrokenRail::IO => "I/O failure",
            BrokenRail::BadPacket => "Couldn't handle packet",
            BrokenRail::NoIPV4Address => "No IPV4 address on interface",
            BrokenRail::MissingConfiguration => "Missing or malformed configuration",
        }
    }
}

} // verus!
