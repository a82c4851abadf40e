//! The poll driver's decisions: which readiness events each descriptor
//! waits for, and how one pass's outcome flips the read-interest flags.
//! The sleep on the readiness primitive itself stays outside the library.

use vstd::prelude::*;
use vstd::string::StringExecFns;
use crate::addrs::InterfaceAddress;
use crate::engine::TransferStatus;
use crate::error::BrokenRail;

verus! {

/// The readiness events one iteration of the poll loop waits for, in
/// order: wire-RX readable, wire-TX writable, host readable, host
/// writable. The wire side waits to read only while `wire_read` is set,
/// else it waits to write; likewise the host side with `host_read`.
pub fn poll_interest(wire_read: bool, host_read: bool) -> (r: (bool, bool, bool, bool))
    ensures
        r.0 == wire_read,
        r.1 == !wire_read,
        r.2 == host_read,
        r.3 == !host_read,
{
    (wire_read, !wire_read, host_read, !host_read)
}

/// The read-interest flags after the host-to-wire pass: blocking on
/// either side clears both flags for the next iteration.
pub fn flags_after_host_pass(status: TransferStatus, wire_read: bool, host_read: bool) -> (r: (
    bool,
    bool,
))
    ensures
        status is Complete ==> r == (wire_read, host_read),
        !(status is Complete) ==> r == (false, false),
{
    match status {
        TransferStatus::Complete => (wire_read, host_read),
        TransferStatus::BlockedDestination => (false, false),
        TransferStatus::BlockedWire => (false, false),
    }
}

/// The read-interest flags after the wire-to-host pass: a blocked host
/// ring clears the wire's read interest, a blocked wire ring clears the
/// host's.
pub fn flags_after_wire_pass(status: TransferStatus, wire_read: bool, host_read: bool) -> (r: (
    bool,
    bool,
))
    ensures
        status is Complete ==> r == (wire_read, host_read),
        status is BlockedDestination ==> r == (false, host_read),
        status is BlockedWire ==> r == (wire_read, false),
{
    match status {
        TransferStatus::Complete => (wire_read, host_read),
        TransferStatus::BlockedDestination => (false, host_read),
        TransferStatus::BlockedWire => (wire_read, false),
    }
}

/// The ring-descriptor name for a device: the device plus the opening
/// suffix (`"/R"` receive-only, `"/T"` transmit-only, `"^"` host side).
pub fn device_name(device: &String, suffix: &str) -> (r: String)
    ensures
        r@ == device@ + suffix@,
{
    let mut r = device.clone();
    r.append(suffix);
    r
}

/// The first IPv4 address in a list, if any.
pub open spec fn first_v4(ips: Seq<InterfaceAddress>) -> Option<u32>
    decreases ips.len(),
{
    if ips.len() == 0 {
        None
    } else if ips[0] is V4 {
        Some(ips[0]->V4_0)
    } else {
        first_v4(ips.drop_first())
    }
}

/// Select the interface's first IPv4 address; an interface without one
/// cannot forward.
pub fn extract_ipv4(ips: &Vec<InterfaceAddress>) -> (r: Result<u32, BrokenRail>)
    ensures
        match r {
            Ok(ip) => first_v4(ips@) == Some(ip),
            Err(e) => first_v4(ips@) is None && e == BrokenRail::NoIPV4Address,
        },
{
    let n = ips.len();
    let mut k: usize = 0;
    proof {
        assert(ips@.skip(0) =~= ips@);
    }
    while k < n
        invariant
            k <= n,
            n == ips@.len(),
            first_v4(ips@) == first_v4(ips@.skip(k as int)),
        decreases n - k,
    {
        proof {
            assert(ips@.skip(k as int)[0] == ips@[k as int]);
            assert(ips@.skip(k as int).drop_first() =~= ips@.skip(k + 1));
        }
        match ips[k] {
            InterfaceAddress::V4(ip) => {
                return Ok(ip);
            },
            InterfaceAddress::V6 => {},
        }
        k = k + 1;
    }
    proof {
        assert(ips@.skip(n as int) =~= Seq::<InterfaceAddress>::empty());
    }
    Err(BrokenRail::NoIPV4Address)
}

} // verus!
