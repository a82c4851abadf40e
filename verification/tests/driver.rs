use rusty_rail::addrs::InterfaceAddress;
use rusty_rail::driver::{
    device_name, extract_ipv4, flags_after_host_pass, flags_after_wire_pass, poll_interest,
};
use rusty_rail::error::BrokenRail;
use rusty_rail::TransferStatus;

#[test]
fn interest_follows_the_flags() {
    assert_eq!(poll_interest(true, true), (true, false, true, false));
    assert_eq!(poll_interest(false, true), (false, true, true, false));
    assert_eq!(poll_interest(true, false), (true, false, false, true));
    assert_eq!(poll_interest(false, false), (false, true, false, true));
}

#[test]
fn host_pass_blocking_clears_both() {
    assert_eq!(flags_after_host_pass(TransferStatus::Complete, true, true), (true, true));
    assert_eq!(flags_after_host_pass(TransferStatus::BlockedDestination, true, true), (false, false));
    assert_eq!(flags_after_host_pass(TransferStatus::BlockedWire, true, true), (false, false));
}

#[test]
fn wire_pass_blocking_clears_one() {
    assert_eq!(flags_after_wire_pass(TransferStatus::Complete, true, true), (true, true));
    assert_eq!(flags_after_wire_pass(TransferStatus::BlockedDestination, true, true), (false, true));
    assert_eq!(flags_after_wire_pass(TransferStatus::BlockedWire, true, true), (true, false));
}

#[test]
fn descriptor_names() {
    let dev = String::from("eth0");
    assert_eq!(device_name(&dev, "/R"), "eth0/R");
    assert_eq!(device_name(&dev, "/T"), "eth0/T");
    assert_eq!(device_name(&dev, "^"), "eth0^");
}

#[test]
fn first_ipv4_is_selected() {
    let ips = vec![
        InterfaceAddress::V6,
        InterfaceAddress::V4(0x0A00_0001),
        InterfaceAddress::V4(0x0A00_0002),
    ];
    assert_eq!(extract_ipv4(&ips), Ok(0x0A00_0001));
}

#[test]
fn no_ipv4_is_an_error() {
    let ips = vec![InterfaceAddress::V6];
    assert_eq!(extract_ipv4(&ips), Err(BrokenRail::NoIPV4Address));
    let none: Vec<InterfaceAddress> = Vec::new();
    assert_eq!(extract_ipv4(&none), Err(BrokenRail::NoIPV4Address));
}
