//! The ARP/neighbour cache: a bounded-TTL IPv4-to-MAC mapping with an
//! expiry sweep and an import of the kernel neighbour table on miss.
//!
//! Time enters as a plain count of seconds, and the kernel neighbour table
//! enters as a plain list of entries; reading the clock and the netlink
//! socket stays outside the library.

use vstd::prelude::*;
use crate::addrs::MacAddress;

verus! {

/// Seconds an entry stays fresh after insertion.
pub const TTL_SECONDS: u64 = 30;

/// An ARP cache value: a MAC address and an absolute expiry timestamp, in
/// seconds.
#[derive(Clone, Copy, PartialEq, Eq, Structural, Debug)]
pub struct CacheEntry {
    pub mac: MacAddress,
    pub expires: u64,
}

/// One entry read from the kernel neighbour table: a link-layer address
/// and an IPv4 destination.
#[derive(Clone, Copy, PartialEq, Eq, Structural, Debug)]
pub struct Neighbour {
    pub ip: u32,
    pub mac: MacAddress,
}

/// The entry stored under `ip`, if any.
pub open spec fn find_entry(entries: Seq<(u32, CacheEntry)>, ip: u32) -> Option<CacheEntry>
    decreases entries.len(),
{
    if entries.len() == 0 {
        None
    } else if entries.last().0 == ip {
        Some(entries.last().1)
    } else {
        find_entry(entries.drop_last(), ip)
    }
}

/// Each IPv4 address appears at most once.
pub open spec fn unique_ips(entries: Seq<(u32, CacheEntry)>) -> bool {
    forall|i: int, j: int| 0 <= i < j < entries.len() ==> entries[i].0 != entries[j].0
}

/// The MAC that `ip` resolves to at time `now`: a stored entry that has
/// not yet expired.
pub open spec fn fresh_mac(entries: Seq<(u32, CacheEntry)>, ip: u32, now: u64) -> Option<
    MacAddress,
> {
    match find_entry(entries, ip) {
        Some(e) => if e.expires >= now {
            Some(e.mac)
        } else {
            None
        },
        None => None,
    }
}

/// The MAC that the kernel neighbour table reports for `ip`; a later entry
/// overrides an earlier one, as a later insert overwrites.
pub open spec fn neighbour_mac(ns: Seq<Neighbour>, ip: u32) -> Option<MacAddress>
    decreases ns.len(),
{
    if ns.len() == 0 {
        None
    } else if ns.last().ip == ip {
        Some(ns.last().mac)
    } else {
        neighbour_mac(ns.drop_last(), ip)
    }
}

/// What a stored entry becomes once the neighbour table is imported at
/// `now`: overwritten when the table reports the address, kept otherwise.
pub open spec fn entry_after_import(
    old_entry: Option<CacheEntry>,
    reported: Option<MacAddress>,
    now: u64,
) -> Option<CacheEntry> {
    match reported {
        Some(m) => Some((CacheEntry { mac: m, expires: (now + TTL_SECONDS) as u64 })),
        None => old_entry,
    }
}

/// What a stored entry becomes once the expiry sweep runs at `now`: kept
/// while the expiry has not been crossed, removed afterwards.
pub open spec fn entry_after_expire(entry: Option<CacheEntry>, now: u64) -> Option<CacheEntry> {
    match entry {
        Some(e) => if e.expires >= now {
            Some(e)
        } else {
            None
        },
        None => None,
    }
}

/// Looking up a stored key returns its entry.
proof fn lemma_find_entry_index(entries: Seq<(u32, CacheEntry)>, i: int)
    requires
        unique_ips(entries),
        0 <= i < entries.len(),
    ensures
        find_entry(entries, entries[i].0) == Some(entries[i].1),
    decreases entries.len(),
{
    if i < entries.len() - 1 {
        assert(entries.last().0 != entries[i].0);
        lemma_find_entry_index(entries.drop_last(), i);
    }
}

/// Looking up an absent key returns nothing.
proof fn lemma_find_entry_absent(entries: Seq<(u32, CacheEntry)>, ip: u32)
    requires
        forall|i: int| 0 <= i < entries.len() ==> (#[trigger] entries[i]).0 != ip,
    ensures
        find_entry(entries, ip) == None::<CacheEntry>,
    decreases entries.len(),
{
    if entries.len() > 0 {
        lemma_find_entry_absent(entries.drop_last(), ip);
    }
}

/// How an in-place overwrite moves the lookups.
proof fn lemma_find_entry_update(entries: Seq<(u32, CacheEntry)>, i: int, e: (u32, CacheEntry), p: u32)
    requires
        unique_ips(entries),
        0 <= i < entries.len(),
        entries[i].0 == e.0,
    ensures
        find_entry(entries.update(i, e), p) == (if p == e.0 {
            Some(e.1)
        } else {
            find_entry(entries, p)
        }),
    decreases entries.len(),
{
    let t = entries.update(i, e);
    if i == entries.len() - 1 {
        assert(t.drop_last() =~= entries.drop_last());
        if p != e.0 {
            assert(find_entry(t, p) == find_entry(entries.drop_last(), p));
        }
    } else {
        assert(t.drop_last() =~= entries.drop_last().update(i, e));
        assert(t.last() == entries.last());
        lemma_find_entry_update(entries.drop_last(), i, e, p);
        if p == e.0 {
            assert(entries.last().0 != e.0);
        }
    }
}

/// The ARP cache. The engine owns it alone and mutates it on lookup
/// misses, so `lookup` takes the cache mutably.
pub struct Cache {
    pub entries: Vec<(u32, CacheEntry)>,
}

impl Cache {
    /// Every stored IPv4 address appears once.
    pub open spec fn wf(&self) -> bool {
        unique_ips(self.entries@)
    }

    pub fn new() -> (c: Cache)
        ensures
            c.wf(),
            c.entries@.len() == 0,
    {
        Cache { entries: Vec::new() }
    }

    /// Insert or overwrite the entry for `ip`; it expires `TTL_SECONDS`
    /// from `now`.
    #[verifier::loop_isolation(false)]
    pub fn add(&mut self, ip: u32, mac: MacAddress, now: u64)
        requires
            old(self).wf(),
            now + TTL_SECONDS <= u64::MAX,
        ensures
            final(self).wf(),
            find_entry(final(self).entries@, ip) matches Some(e) && e.mac == mac && e.expires
                == now + TTL_SECONDS,
            forall|p: u32|
                p != ip ==> #[trigger] find_entry(final(self).entries@, p) == find_entry(
                    old(self).entries@,
                    p,
                ),
    {
        let entry = CacheEntry { mac, expires: now + TTL_SECONDS };
        let n = self.entries.len();
        let mut k: usize = 0;
        while k < n
            invariant
                n == self.entries@.len(),
                k <= n,
                self.entries@ == old(self).entries@,
                forall|i: int| 0 <= i < k ==> (#[trigger] self.entries@[i]).0 != ip,
            decreases n - k,
        {
            if self.entries[k].0 == ip {
                let ghost before = self.entries@;
                self.entries[k] = (ip, entry);
                proof {
                    assert forall|p: u32| true implies #[trigger] find_entry(
                        self.entries@,
                        p,
                    ) == (if p == ip {
                        Some(entry)
                    } else {
                        find_entry(before, p)
                    }) by {
                        lemma_find_entry_update(before, k as int, (ip, entry), p);
                    }
                }
                return ;
            }
            k = k + 1;
        }
        let ghost before = self.entries@;
        self.entries.push((ip, entry));
        proof {
            assert(self.entries@.drop_last() =~= before);
            assert forall|p: u32| p != ip implies #[trigger] find_entry(self.entries@, p)
                == find_entry(before, p) by {
            }
            assert forall|i: int, j: int|
                0 <= i < j < self.entries@.len() implies self.entries@[i].0
                != self.entries@[j].0 by {
                if j == self.entries@.len() - 1 {
                    assert(self.entries@[i] == before[i]);
                }
            }
        }
    }

    /// The fresh entry stored for `ip` at `now`, without any import.
    #[verifier::loop_isolation(false)]
    fn get_fresh(&self, ip: u32, now: u64) -> (r: Option<MacAddress>)
        requires
            self.wf(),
        ensures
            r == fresh_mac(self.entries@, ip, now),
    {
        let n = self.entries.len();
        let mut k: usize = 0;
        while k < n
            invariant
                self.wf(),
                n == self.entries@.len(),
                k <= n,
                forall|i: int| 0 <= i < k ==> (#[trigger] self.entries@[i]).0 != ip,
            decreases n - k,
        {
            if self.entries[k].0 == ip {
                proof {
                    lemma_find_entry_index(self.entries@, k as int);
                }
                let e = self.entries[k].1;
                if e.expires >= now {
                    return Some(e.mac);
                } else {
                    return None;
                }
            }
            k = k + 1;
        }
        proof {
            lemma_find_entry_absent(self.entries@, ip);
        }
        None
    }

    /// Import every neighbour-table entry as a fresh cache entry.
    #[verifier::loop_isolation(false)]
    fn import(&mut self, neighbours: &Vec<Neighbour>, now: u64)
        requires
            old(self).wf(),
            now + TTL_SECONDS <= u64::MAX,
        ensures
            final(self).wf(),
            forall|p: u32|
                #[trigger] find_entry(final(self).entries@, p) == entry_after_import(
                    find_entry(old(self).entries@, p),
                    neighbour_mac(neighbours@, p),
                    now,
                ),
    {
        let n = neighbours.len();
        let mut k: usize = 0;
        while k < n
            invariant
                self.wf(),
                n == neighbours@.len(),
                k <= n,
                now + TTL_SECONDS <= u64::MAX,
                forall|p: u32|
                    #[trigger] find_entry(self.entries@, p) == entry_after_import(
                        find_entry(old(self).entries@, p),
                        neighbour_mac(neighbours@.take(k as int), p),
                        now,
                    ),
            decreases n - k,
        {
            let nb = neighbours[k];
            let ghost mid = self.entries@;
            self.add(nb.ip, nb.mac, now);
            proof {
                assert(neighbours@.take(k as int + 1).drop_last() =~= neighbours@.take(k as int));
                assert(neighbours@.take(k as int + 1).last() == neighbours@[k as int]);
                assert forall|p: u32| true implies #[trigger] find_entry(self.entries@, p)
                    == entry_after_import(
                    find_entry(old(self).entries@, p),
                    neighbour_mac(neighbours@.take(k as int + 1), p),
                    now,
                ) by {
                    if p == nb.ip {
                        assert(find_entry(self.entries@, p) matches Some(e) && e.mac == nb.mac
                            && e.expires == now + TTL_SECONDS);
                    } else {
                        assert(find_entry(self.entries@, p) == find_entry(mid, p));
                        assert(neighbour_mac(neighbours@.take(k as int + 1), p) == neighbour_mac(
                            neighbours@.take(k as int),
                            p,
                        ));
                    }
                }
            }
            k = k + 1;
        }
        proof {
            assert(neighbours@.take(n as int) =~= neighbours@);
        }
    }

    /// Look up `ip` at time `now`. On a miss the kernel neighbour table,
    /// handed in as `neighbours`, is imported (every entry fresh for
    /// `TTL_SECONDS`) and the lookup retried; a miss after that returns
    /// nothing. A lookup can therefore mutate the cache.
    pub fn lookup(&mut self, ip: u32, neighbours: &Vec<Neighbour>, now: u64) -> (r: Option<
        MacAddress,
    >)
        requires
            old(self).wf(),
            now + TTL_SECONDS <= u64::MAX,
        ensures
            final(self).wf(),
            r == fresh_mac(final(self).entries@, ip, now),
            // a fresh hit leaves the cache unchanged
            fresh_mac(old(self).entries@, ip, now) is Some ==> final(self).entries@ == old(
                self,
            ).entries@ && r == fresh_mac(old(self).entries@, ip, now),
            // a miss imports the neighbour table, entry by entry
            fresh_mac(old(self).entries@, ip, now) is None ==> forall|p: u32|
                #[trigger] find_entry(final(self).entries@, p) == entry_after_import(
                    find_entry(old(self).entries@, p),
                    neighbour_mac(neighbours@, p),
                    now,
                ),
    {
        let hit = self.get_fresh(ip, now);
        if hit.is_some() {
            return hit;
        }
        self.import(neighbours, now);
        self.get_fresh(ip, now)
    }

    /// Remove every entry whose expiry lies strictly before `now`.
    #[verifier::loop_isolation(false)]
    pub fn expire(&mut self, now: u64)
        requires
            old(self).wf(),
        ensures
            final(self).wf(),
            forall|p: u32|
                #[trigger] find_entry(final(self).entries@, p) == entry_after_expire(
                    find_entry(old(self).entries@, p),
                    now,
                ),
    {
        let n = self.entries.len();
        let mut kept: Vec<(u32, CacheEntry)> = Vec::new();
        let mut k: usize = 0;
        while k < n
            invariant
                self.wf(),
                n == self.entries@.len(),
                self.entries@ == old(self).entries@,
                k <= n,
                unique_ips(kept@),
                forall|i: int|
                    0 <= i < kept@.len() ==> exists|j: int|
                        0 <= j < k && #[trigger] kept@[i] == self.entries@[j],
                forall|p: u32|
                    #[trigger] find_entry(kept@, p) == entry_after_expire(
                        find_entry(self.entries@.take(k as int), p),
                        now,
                    ),
            decreases n - k,
        {
            let pair = self.entries[k];
            let ghost kept_before = kept@;
            if pair.1.expires >= now {
                kept.push(pair);
            }
            proof {
                assert(self.entries@.take(k as int + 1).drop_last() =~= self.entries@.take(
                    k as int,
                ));
                assert(self.entries@.take(k as int + 1).last() == self.entries@[k as int]);
                if pair.1.expires >= now {
                    assert(kept@.drop_last() =~= kept_before);
                    // the pushed key is new to `kept`
                    assert forall|i: int, j: int|
                        0 <= i < j < kept@.len() implies kept@[i].0 != kept@[j].0 by {
                        if j == kept@.len() - 1 {
                            let jj = choose|jj: int|
                                0 <= jj < k && #[trigger] kept_before[i] == self.entries@[jj];
                            assert(self.entries@[jj].0 != self.entries@[k as int].0);
                        }
                    }
                    assert forall|p: u32| true implies #[trigger] find_entry(kept@, p)
                        == entry_after_expire(
                        find_entry(self.entries@.take(k as int + 1), p),
                        now,
                    ) by {
                        if p != pair.0 {
                            assert(find_entry(kept@, p) == find_entry(kept_before, p));
                        }
                    }
                } else {
                    assert forall|p: u32| true implies #[trigger] find_entry(kept@, p)
                        == entry_after_expire(
                        find_entry(self.entries@.take(k as int + 1), p),
                        now,
                    ) by {
                        if p == pair.0 {
                            // an expired key cannot be in `kept`: every kept
                            // entry comes from an earlier index, and keys are
                            // unique
                            assert forall|i: int| 0 <= i < kept@.len()
                                implies (#[trigger] kept@[i]).0 != p by {
                                let jj = choose|jj: int|
                                    0 <= jj < k && #[trigger] kept@[i] == self.entries@[jj];
                                assert(self.entries@[jj].0 != self.entries@[k as int].0);
                            }
                            lemma_find_entry_absent(kept@, p);
                        }
                    }
                }
            }
            k = k + 1;
        }
        proof {
            assert(self.entries@.take(n as int) =~= self.entries@);
        }
        self.entries = kept;
    }
}

/// The fresh entry for `ip` once the neighbour table has been imported at
/// `now` into a cache whose entries were those of `cache0`.
pub open spec fn fresh_after_import(
    cache0: Seq<(u32, CacheEntry)>,
    ns: Seq<Neighbour>,
    now: u64,
    ip: u32,
) -> Option<MacAddress> {
    match entry_after_import(find_entry(cache0, ip), neighbour_mac(ns, ip), now) {
        Some(e) => if e.expires >= now {
            Some(e.mac)
        } else {
            None
        },
        None => None,
    }
}

/// Importing the same neighbour table at the same time a second time
/// changes nothing.
pub proof fn lemma_import_idempotent(
    e: Option<CacheEntry>,
    reported: Option<MacAddress>,
    now: u64,
)
    ensures
        entry_after_import(entry_after_import(e, reported, now), reported, now)
            == entry_after_import(e, reported, now),
{
}

/// The TTL law of the cache: an entry added at `t0` answers lookups at any
/// time through its expiry; an expiry sweep strictly after the expiry
/// removes it, and a retry that imports a neighbour table without the
/// address still misses.
pub proof fn lemma_cache_ttl(
    added: Seq<(u32, CacheEntry)>,
    swept: Seq<(u32, CacheEntry)>,
    ip: u32,
    mac: MacAddress,
    t0: u64,
    t1: u64,
    t2: u64,
)
    requires
        t0 + TTL_SECONDS <= u64::MAX,
        // `added` is a cache just after `add(ip, mac)` at `t0`
        find_entry(added, ip) matches Some(e) && e.mac == mac && e.expires == t0 + TTL_SECONDS,
        // `swept` is a cache just after `expire` at `t2` ran on `added`
        find_entry(swept, ip) == entry_after_expire(find_entry(added, ip), t2),
        t1 <= t0 + TTL_SECONDS,
        t2 > t0 + TTL_SECONDS,
    ensures
        fresh_mac(added, ip, t1) == Some(mac),
        fresh_mac(swept, ip, t2) == None::<MacAddress>,
        forall|ns: Seq<Neighbour>|
            #[trigger] neighbour_mac(ns, ip) is None ==> entry_after_import(
                find_entry(swept, ip),
                neighbour_mac(ns, ip),
                t2,
            ) == None::<CacheEntry>,
{
}

} // verus!
