use rusty_rail::addrs::MacAddress;
use rusty_rail::arpcache::{Cache, Neighbour};
use rusty_rail::consistenthash::{Backend, ConsistentHash};
use rusty_rail::error::BrokenRail;
use rusty_rail::packet::gre_flow_hash;
use rusty_rail::{move_packets, Ring, Slot, TransferStatus};

const NOW: u64 = 1_000;
const IF_IP: u32 = 0x0A00_00FE; // 10.0.0.254

fn if_mac() -> MacAddress {
    MacAddress::new(0x02, 0xFE, 0xFE, 0xFE, 0xFE, 0xFE)
}

fn backend_mac(i: u8) -> MacAddress {
    MacAddress::new(0x02, 0, 0, 0, 0, i)
}

/// Three live backends with distinct target addresses 10.1.0.1..3.
fn routes() -> ConsistentHash {
    let mut c = ConsistentHash::new();
    c.backends.push(Backend::new("server-1", 0x0A01_0001));
    c.backends.push(Backend::new("server-2", 0x0A01_0002));
    c.backends.push(Backend::new("server-3", 0x0A01_0003));
    c.populate();
    c
}

/// A cache that resolves every backend target.
fn cache_with_backends() -> Cache {
    let mut cache = Cache::new();
    cache.add(0x0A01_0001, backend_mac(1), NOW);
    cache.add(0x0A01_0002, backend_mac(2), NOW);
    cache.add(0x0A01_0003, backend_mac(3), NOW);
    cache
}

fn push_be32(v: &mut Vec<u8>, x: u32) {
    v.push((x >> 24) as u8);
    v.push((x >> 16) as u8);
    v.push((x >> 8) as u8);
    v.push(x as u8);
}

fn mac_bytes(m: &MacAddress) -> [u8; 6] {
    [m.o0, m.o1, m.o2, m.o3, m.o4, m.o5]
}

/// An Ethernet/IPv4 frame with a 20-byte header and the given payload.
fn ipv4_frame(dst: &MacAddress, src: &MacAddress, proto: u8, sip: u32, dip: u32, payload: &[u8]) -> Vec<u8> {
    let mut f = Vec::new();
    f.extend_from_slice(&mac_bytes(dst));
    f.extend_from_slice(&mac_bytes(src));
    f.push(0x08);
    f.push(0x00);
    // IPv4 header
    f.push(0x45); // version 4, ihl 5
    f.push(0x00);
    let total = 20 + payload.len() as u16;
    f.push((total >> 8) as u8);
    f.push(total as u8);
    f.extend_from_slice(&[0x00, 0x00, 0x40, 0x00]); // id, flags
    f.push(0x40); // ttl
    f.push(proto);
    f.push(0x00); // checksum hi
    f.push(0x00); // checksum lo
    push_be32(&mut f, sip);
    push_be32(&mut f, dip);
    f.extend_from_slice(payload);
    f
}

/// An IPv4-in-GRE frame: outer IPv4 proto 47, bare GRE header, inner IPv4.
fn gre_frame(inner_sip: u32, inner_dip: u32, inner_proto: u8) -> Vec<u8> {
    let mut gre = vec![0x00, 0x00, 0x08, 0x00]; // no options, proto IPv4
    let inner = &ipv4_frame(&if_mac(), &if_mac(), inner_proto, inner_sip, inner_dip, b"xy")[14..];
    gre.extend_from_slice(inner);
    ipv4_frame(&if_mac(), &backend_mac(9), 47, 0x0A00_0001, IF_IP, &gre)
}

fn rx_ring(frames: &[Vec<u8>]) -> Ring {
    let slots = frames
        .iter()
        .map(|f| {
            let mut buf = f.clone();
            buf.resize(2048, 0);
            Slot { len: f.len(), buf }
        })
        .collect();
    Ring { slots, head: 0, cur: 0, tail: frames.len() }
}

fn tx_ring(n: usize) -> Ring {
    let slots = (0..n).map(|_| Slot { len: 0, buf: vec![0u8; 2048] }).collect();
    Ring { slots, head: 0, cur: 0, tail: n }
}

/// A TX ring already filled to capacity: no writable slot.
fn full_tx_ring() -> Ring {
    Ring { slots: Vec::new(), head: 0, cur: 0, tail: 0 }
}

/// The stored IPv4 header checksum is valid: the one's-complement sum over
/// the header, including the stored checksum, folds to 0xFFFF.
fn checksum_ok(frame: &[u8]) -> bool {
    let ihl = ((frame[14] & 0x0F) as usize) * 4;
    let mut sum: u32 = 0;
    let mut off = 14;
    while off < 14 + ihl {
        sum += ((frame[off] as u32) << 8) + frame[off + 1] as u32;
        off += 2;
    }
    while sum > 0xFFFF {
        sum = (sum >> 16) + (sum & 0xFFFF);
    }
    sum == 0xFFFF
}

#[test]
fn it_works() {}

#[test]
fn plain_ipv4_forward() {
    // a non-GRE IPv4 frame entering wire-RX crosses over unchanged
    let frame = ipv4_frame(&if_mac(), &backend_mac(9), 6, 0x0A00_0001, IF_IP, b"hello");
    let mut src = rx_ring(&[frame.clone()]);
    let mut host = tx_ring(4);
    let mut wire = tx_ring(4);
    let routes = routes();
    let mut cache = cache_with_backends();
    let ns: Vec<Neighbour> = Vec::new();
    let r = move_packets(
        &mut src, &mut host, &mut wire, true, IF_IP, &if_mac(), &routes, &mut cache, &ns, NOW,
    );
    assert!(matches!(r, Ok(TransferStatus::Complete)));
    assert_eq!(host.cur, 1);
    assert_eq!(host.head, 1);
    assert_eq!(host.slots[0].len, frame.len());
    assert_eq!(&host.slots[0].buf[..frame.len()], &frame[..]);
    assert_eq!(wire.cur, 0);
    // committed RX cursor
    assert_eq!(src.cur, src.tail);
    assert_eq!(src.head, src.cur);
}

#[test]
fn gre_steering() {
    // an IPv4-in-GRE frame is steered out the wire toward the backend its
    // inner flow hashes to, with addresses rewritten and the checksum redone
    let frame = gre_frame(0x0A00_0001, 0x0A00_0002, 6); // 10.0.0.1 -> 10.0.0.2, TCP
    let routes = routes();
    let h = gre_flow_hash(&frame, frame.len());
    let idx = routes.route(h);
    let expected_ip = routes.backends[idx].target;
    let expected_mac = backend_mac((idx + 1) as u8);

    let mut src = rx_ring(&[frame.clone()]);
    let mut host = tx_ring(4);
    let mut wire = tx_ring(4);
    let mut cache = cache_with_backends();
    let ns: Vec<Neighbour> = Vec::new();
    let r = move_packets(
        &mut src, &mut host, &mut wire, true, IF_IP, &if_mac(), &routes, &mut cache, &ns, NOW,
    );
    assert!(matches!(r, Ok(TransferStatus::Complete)));
    assert_eq!(wire.cur, 1);
    assert_eq!(wire.head, 1);
    assert_eq!(host.cur, 0);
    let out = &wire.slots[0].buf[..frame.len()];
    assert_eq!(wire.slots[0].len, frame.len());
    // Ethernet: destination is the backend's MAC, source the old destination
    assert_eq!(&out[0..6], &mac_bytes(&expected_mac));
    assert_eq!(&out[6..12], &frame[0..6]);
    // outer IPv4: source is the old destination, destination the backend
    assert_eq!(&out[26..30], &frame[30..34]);
    assert_eq!(
        &out[30..34],
        &[
            (expected_ip >> 24) as u8,
            (expected_ip >> 16) as u8,
            (expected_ip >> 8) as u8,
            expected_ip as u8,
        ],
    );
    assert!(checksum_ok(out));
    // GRE header and the inner packet are untouched
    assert_eq!(&out[34..frame.len()], &frame[34..]);
    assert_eq!(src.head, src.tail);
}

#[test]
fn backpressure() {
    // with wire-TX at capacity a GRE frame blocks; the RX cursor stays put;
    // once the ring drains the frame is delivered
    let frame = gre_frame(0x0A00_0001, 0x0A00_0002, 6);
    let routes = routes();
    let mut src = rx_ring(&[frame.clone()]);
    let mut host = tx_ring(4);
    let mut wire = full_tx_ring();
    let mut cache = cache_with_backends();
    let ns: Vec<Neighbour> = Vec::new();
    let r = move_packets(
        &mut src, &mut host, &mut wire, true, IF_IP, &if_mac(), &routes, &mut cache, &ns, NOW,
    );
    assert!(matches!(r, Ok(TransferStatus::BlockedWire)));
    assert_eq!(src.cur, 0);
    assert_eq!(src.head, 0);
    assert_eq!(host.cur, 0);
    // the poll driver sees wire-TX writable and the engine runs again
    let mut wire = tx_ring(4);
    let r = move_packets(
        &mut src, &mut host, &mut wire, true, IF_IP, &if_mac(), &routes, &mut cache, &ns, NOW,
    );
    assert!(matches!(r, Ok(TransferStatus::Complete)));
    assert_eq!(wire.cur, 1);
    assert_eq!(src.head, src.tail);
}

#[test]
fn arp_miss_drop() {
    // no cache entry for the chosen backend and an empty neighbour table:
    // the frame is dropped, no TX slot is consumed, the RX cursor advances
    let frame = gre_frame(0x0A00_0001, 0x0A00_0002, 6);
    let routes = routes();
    let mut src = rx_ring(&[frame.clone()]);
    let mut host = tx_ring(4);
    let mut wire = tx_ring(4);
    let mut cache = Cache::new();
    let ns: Vec<Neighbour> = Vec::new();
    let r = move_packets(
        &mut src, &mut host, &mut wire, true, IF_IP, &if_mac(), &routes, &mut cache, &ns, NOW,
    );
    assert!(matches!(r, Ok(TransferStatus::Complete)));
    assert_eq!(wire.cur, 0);
    assert_eq!(host.cur, 0);
    assert_eq!(src.cur, 1);
    assert_eq!(src.head, 1);
}

#[test]
fn bad_packet_stops_the_pass() {
    // a frame too short for an Ethernet header is fatal to the pass
    let frame = vec![0u8; 10];
    let routes = routes();
    let mut src = rx_ring(&[frame]);
    let mut host = tx_ring(4);
    let mut wire = tx_ring(4);
    let mut cache = Cache::new();
    let ns: Vec<Neighbour> = Vec::new();
    let r = move_packets(
        &mut src, &mut host, &mut wire, true, IF_IP, &if_mac(), &routes, &mut cache, &ns, NOW,
    );
    assert!(matches!(r, Err(BrokenRail::BadPacket)));
    assert_eq!(src.head, 0);
}

#[test]
fn unknown_gre_protocol_drops() {
    // GRE carrying anything but IPv4 is consumed as noise
    let mut frame = gre_frame(0x0A00_0001, 0x0A00_0002, 6);
    frame[36] = 0x86; // inner protocol type 0x86DD
    frame[37] = 0xDD;
    let routes = routes();
    let mut src = rx_ring(&[frame]);
    let mut host = tx_ring(4);
    let mut wire = tx_ring(4);
    let mut cache = cache_with_backends();
    let ns: Vec<Neighbour> = Vec::new();
    let r = move_packets(
        &mut src, &mut host, &mut wire, true, IF_IP, &if_mac(), &routes, &mut cache, &ns, NOW,
    );
    assert!(matches!(r, Ok(TransferStatus::Complete)));
    assert_eq!(wire.cur, 0);
    assert_eq!(host.cur, 0);
    assert_eq!(src.head, 1);
}

#[test]
fn flow_order_is_kept() {
    // two frames of the same flow leave in arrival order on the same egress
    let a = ipv4_frame(&if_mac(), &backend_mac(9), 6, 0x0A00_0001, IF_IP, b"first");
    let b = ipv4_frame(&if_mac(), &backend_mac(9), 6, 0x0A00_0001, IF_IP, b"second");
    let routes = routes();
    let mut src = rx_ring(&[a.clone(), b.clone()]);
    let mut host = tx_ring(4);
    let mut wire = tx_ring(4);
    let mut cache = cache_with_backends();
    let ns: Vec<Neighbour> = Vec::new();
    let r = move_packets(
        &mut src, &mut host, &mut wire, true, IF_IP, &if_mac(), &routes, &mut cache, &ns, NOW,
    );
    assert!(matches!(r, Ok(TransferStatus::Complete)));
    assert_eq!(host.cur, 2);
    assert_eq!(&host.slots[0].buf[..a.len()], &a[..]);
    assert_eq!(&host.slots[1].buf[..b.len()], &b[..]);
}

#[test]
fn empty_pass_completes() {
    // nothing pending: the pass completes and commits without writing
    let routes = routes();
    let mut src = rx_ring(&[]);
    let mut host = tx_ring(2);
    let mut wire = tx_ring(2);
    let mut cache = Cache::new();
    let ns: Vec<Neighbour> = Vec::new();
    let r = move_packets(
        &mut src, &mut host, &mut wire, true, IF_IP, &if_mac(), &routes, &mut cache, &ns, NOW,
    );
    assert!(matches!(r, Ok(TransferStatus::Complete)));
    assert_eq!(host.cur, 0);
    assert_eq!(wire.cur, 0);
    assert_eq!(src.head, 0);
}

#[test]
fn neighbour_import_resolves_a_wire_frame() {
    // an empty cache but a kernel table that knows the backend: the frame
    // is steered after the import
    let frame = gre_frame(0x0A00_0001, 0x0A00_0002, 6);
    let routes = routes();
    let h = gre_flow_hash(&frame, frame.len());
    let idx = routes.route(h);
    let target = routes.backends[idx].target;
    let learned = MacAddress::new(0x02, 0x11, 0x22, 0x33, 0x44, 0x55);
    let ns = vec![
        Neighbour { ip: 0x0A01_0001, mac: learned },
        Neighbour { ip: 0x0A01_0002, mac: learned },
        Neighbour { ip: 0x0A01_0003, mac: learned },
    ];
    let mut src = rx_ring(&[frame.clone()]);
    let mut host = tx_ring(4);
    let mut wire = tx_ring(4);
    let mut cache = Cache::new();
    let r = move_packets(
        &mut src, &mut host, &mut wire, true, IF_IP, &if_mac(), &routes, &mut cache, &ns, NOW,
    );
    assert!(matches!(r, Ok(TransferStatus::Complete)));
    assert_eq!(wire.cur, 1);
    let out = &wire.slots[0].buf[..frame.len()];
    assert_eq!(&out[0..6], &[0x02, 0x11, 0x22, 0x33, 0x44, 0x55]);
    // the import left the entry cached
    let empty: Vec<Neighbour> = Vec::new();
    assert_eq!(cache.lookup(target, &empty, NOW), Some(learned));
}

#[test]
fn gre_key_field_is_skipped() {
    // a GRE header carrying a key: the inner header sits four bytes later
    // and the frame still steers
    let mut gre = vec![0x20, 0x00, 0x08, 0x00]; // key present, proto IPv4
    gre.extend_from_slice(&[0xDE, 0xAD, 0xBE, 0xEF]); // the key
    let inner = &ipv4_frame(&if_mac(), &if_mac(), 6, 0x0A00_0001, 0x0A00_0002, b"xy")[14..];
    gre.extend_from_slice(inner);
    let frame = ipv4_frame(&if_mac(), &backend_mac(9), 47, 0x0A00_0001, IF_IP, &gre);

    let routes = routes();
    let h = gre_flow_hash(&frame, frame.len());
    let idx = routes.route(h);
    let expected_mac = backend_mac((idx + 1) as u8);

    let mut src = rx_ring(&[frame.clone()]);
    let mut host = tx_ring(4);
    let mut wire = tx_ring(4);
    let mut cache = cache_with_backends();
    let ns: Vec<Neighbour> = Vec::new();
    let r = move_packets(
        &mut src, &mut host, &mut wire, true, IF_IP, &if_mac(), &routes, &mut cache, &ns, NOW,
    );
    assert!(matches!(r, Ok(TransferStatus::Complete)));
    assert_eq!(wire.cur, 1);
    let out = &wire.slots[0].buf[..frame.len()];
    assert_eq!(&out[0..6], &mac_bytes(&expected_mac));
    // GRE header with its key, and the inner packet, are untouched
    assert_eq!(&out[34..frame.len()], &frame[34..]);
}

#[test]
fn truncated_gre_is_dropped() {
    // an IPv4 frame claiming GRE but too short for the GRE header
    let frame = ipv4_frame(&if_mac(), &backend_mac(9), 47, 0x0A00_0001, IF_IP, b"xy");
    let routes = routes();
    let mut src = rx_ring(&[frame]);
    let mut host = tx_ring(4);
    let mut wire = tx_ring(4);
    let mut cache = cache_with_backends();
    let ns: Vec<Neighbour> = Vec::new();
    let r = move_packets(
        &mut src, &mut host, &mut wire, true, IF_IP, &if_mac(), &routes, &mut cache, &ns, NOW,
    );
    assert!(matches!(r, Ok(TransferStatus::Complete)));
    assert_eq!(wire.cur, 0);
    assert_eq!(host.cur, 0);
    assert_eq!(src.head, 1);
}
