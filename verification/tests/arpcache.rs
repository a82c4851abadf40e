use rusty_rail::addrs::MacAddress;
use rusty_rail::arpcache::{Cache, CacheEntry, Neighbour};

fn mac_aa() -> MacAddress {
    MacAddress::new(0xaa, 0xaa, 0xaa, 0xaa, 0xaa, 0xaa)
}

#[test]
fn add_and_lookup_expire() {
    let empty: Vec<Neighbour> = Vec::new();
    let mut c = Cache::new();
    let target_mac = mac_aa();
    let some_ip = 0x7F00_0002u32; // 127.0.0.2
    let now = 1_000u64;
    c.add(some_ip, target_mac, now);
    c.lookup(some_ip, &empty, now).unwrap();
    c.expire(now);
    c.lookup(some_ip, &empty, now).unwrap();
    // overwrite with an expiry already in the past
    c.entries.clear();
    c.entries.push((some_ip, CacheEntry { mac: target_mac, expires: now - 1 }));
    c.expire(now);
    let maybe_ip = c.lookup(some_ip, &empty, now);
    if let Some(_) = maybe_ip {
        panic!("Failed to expire cached entry.");
    }
}

#[test]
fn lookup_within_ttl() {
    let empty: Vec<Neighbour> = Vec::new();
    let mut c = Cache::new();
    let ip = 0x0A00_0001u32;
    let now = 500u64;
    c.add(ip, mac_aa(), now);
    // fresh right away and just before the TTL passes
    assert_eq!(c.lookup(ip, &empty, now), Some(mac_aa()));
    assert_eq!(c.lookup(ip, &empty, now + 29), Some(mac_aa()));
    assert_eq!(c.lookup(ip, &empty, now + 30), Some(mac_aa()));
}

#[test]
fn expiry_sweep() {
    // insert 127.0.0.1 with an expiry one second in the past; expire();
    // a lookup backed by an empty neighbour table returns nothing
    let empty: Vec<Neighbour> = Vec::new();
    let mut c = Cache::new();
    let ip = 0x7F00_0001u32; // 127.0.0.1
    let now = 100u64;
    c.entries.push((ip, CacheEntry { mac: mac_aa(), expires: now - 1 }));
    c.expire(now);
    assert!(c.entries.is_empty());
    assert_eq!(c.lookup(ip, &empty, now), None);
}

#[test]
fn miss_imports_neighbours() {
    let mac_b = MacAddress::new(1, 2, 3, 4, 5, 6);
    let ip = 0x0A00_0007u32;
    let ns = vec![Neighbour { ip, mac: mac_b }];
    let mut c = Cache::new();
    let now = 50u64;
    // the miss imports the kernel table and retries
    assert_eq!(c.lookup(ip, &ns, now), Some(mac_b));
    // imported entries are real entries with the full TTL
    let empty: Vec<Neighbour> = Vec::new();
    assert_eq!(c.lookup(ip, &empty, now + 30), Some(mac_b));
    assert_eq!(c.lookup(0x0A00_0008u32, &empty, now), None);
}

#[test]
fn add_refreshes_the_expiry() {
    let empty: Vec<Neighbour> = Vec::new();
    let mut c = Cache::new();
    let ip = 0x0A00_0009u32;
    c.add(ip, mac_aa(), 100);
    // re-adding later pushes the expiry out
    c.add(ip, mac_aa(), 150);
    assert_eq!(c.lookup(ip, &empty, 170), Some(mac_aa()));
    assert_eq!(c.entries.len(), 1);
    c.expire(181);
    assert_eq!(c.lookup(ip, &empty, 181), None);
}
