//! The steering engine: one pass moves received frames from an RX ring
//! into the right egress ring, classifying each frame, rewriting Wire
//! frames toward their backend, and enforcing backpressure by leaving a
//! frame un-consumed when its egress is full.

use vstd::prelude::*;
use crate::addrs::MacAddress;
use crate::arpcache::{
    entry_after_import, find_entry, fresh_after_import, fresh_mac, lemma_import_idempotent,
    neighbour_mac, Cache, CacheEntry, Neighbour, TTL_SECONDS,
};
use crate::consistenthash::{Backend, ConsistentHash};
use crate::error::BrokenRail;
use crate::packet::{
    check_inner, classify, classify_spec, gre_flow_hash, flow_hash_of, inner_destination,
    inner_parses, inner_protocol, inner_source, rewrite_frame, rewrite_spec, Direction,
};

verus! {

/// The outcome of one engine pass: either every pending frame was
/// consumed, or the pass stopped because an egress ring was full.
#[derive(Clone, Copy, PartialEq, Eq, Structural, Debug)]
pub enum TransferStatus {
    BlockedDestination,
    BlockedWire,
    Complete,
}

/// One ring slot: a fixed buffer and the length of the packet it holds.
pub struct Slot {
    pub len: usize,
    pub buf: Vec<u8>,
}

/// One ring of a kernel-bypass descriptor. For an RX ring the slots
/// between `cur` and `tail` hold received frames; for a TX ring they are
/// free for writing. `head` is the committed cursor: everything before it
/// has been handed back to the ring's owner.
pub struct Ring {
    pub slots: Vec<Slot>,
    pub head: usize,
    pub cur: usize,
    pub tail: usize,
}

impl Ring {
    /// Cursors in order and every slot's length within its buffer.
    pub open spec fn wf(&self) -> bool {
        &&& self.head <= self.cur <= self.tail <= self.slots@.len()
        &&& forall|i: int|
            0 <= i < self.slots@.len() ==> (#[trigger] self.slots@[i]).len
                <= self.slots@[i].buf@.len()
    }

    /// The packet bytes of slot `i`.
    pub open spec fn content(&self, i: int) -> Seq<u8> {
        self.slots@[i].buf@.take(self.slots@[i].len as int)
    }

    /// Commit the working cursor: advance `head` to `cur`.
    pub fn head_from_cur(&mut self)
        requires
            old(self).wf(),
        ensures
            final(self).wf(),
            final(self).head == old(self).cur,
            final(self).cur == old(self).cur,
            final(self).tail == old(self).tail,
            final(self).slots@ == old(self).slots@,
    {
        self.head = self.cur;
    }
}

/// The IPv4 targets of a backend sequence.
pub open spec fn targets_of(backends: Seq<Backend>) -> Seq<u32> {
    Seq::new(backends.len(), |i: int| backends[i].target)
}

/// The backend IPv4 address that flow hash `h` routes to.
pub open spec fn route_target(lookup: Seq<u32>, targets: Seq<u32>, h: u64) -> u32 {
    targets[lookup[h as int % lookup.len() as int] as int]
}

/// What the engine's cache lookup returns for `ip` during a pass that
/// started with cache `cache0`, given whether an earlier miss has already
/// imported the neighbour table `ns`.
pub open spec fn pass_mac(
    cache0: Seq<(u32, CacheEntry)>,
    ns: Seq<Neighbour>,
    now: u64,
    imported: bool,
    ip: u32,
) -> Option<MacAddress> {
    if !imported && fresh_mac(cache0, ip, now) is Some {
        fresh_mac(cache0, ip, now)
    } else {
        fresh_after_import(cache0, ns, now, ip)
    }
}

/// The outcome of a pass: whether every frame parsed, the transfer
/// status, how many RX slots were consumed, the frames placed on each
/// egress, and whether some miss imported the neighbour table.
pub struct PassOutcome {
    pub ok: bool,
    pub status: TransferStatus,
    pub consumed: nat,
    pub dest_out: Seq<Seq<u8>>,
    pub wire_out: Seq<Seq<u8>>,
    pub imported: bool,
}

/// One engine pass over the pending frames, as a function: classify each
/// frame in arrival order; a frame that does not parse stops the pass; a
/// Drop frame is consumed; a Destination frame goes to the destination
/// ring; a Wire frame is rewritten toward the backend its inner flow
/// hashes to and goes to the wire ring (or the destination ring when the
/// pass has no wire ring), unless its egress is full — then the pass stops
/// with the matching blocked status and the frame stays pending. A Wire
/// frame whose inner header cannot be read, or whose backend's MAC the
/// cache and the neighbour table cannot resolve, is consumed silently.
pub open spec fn pass_from(
    frames: Seq<Seq<u8>>,
    dfree: nat,
    wfree: nat,
    use_wire: bool,
    lookup: Seq<u32>,
    targets: Seq<u32>,
    cache0: Seq<(u32, CacheEntry)>,
    ns: Seq<Neighbour>,
    now: u64,
    imported: bool,
) -> PassOutcome
    decreases frames.len(),
{
    if frames.len() == 0 {
        PassOutcome {
            ok: true,
            status: TransferStatus::Complete,
            consumed: 0,
            dest_out: Seq::empty(),
            wire_out: Seq::empty(),
            imported,
        }
    } else {
        let f = frames[0];
        match classify_spec(f) {
            None => PassOutcome {
                ok: false,
                status: TransferStatus::Complete,
                consumed: 0,
                dest_out: Seq::empty(),
                wire_out: Seq::empty(),
                imported,
            },
            Some(Direction::Drop) => {
                let rest = pass_from(
                    frames.drop_first(),
                    dfree,
                    wfree,
                    use_wire,
                    lookup,
                    targets,
                    cache0,
                    ns,
                    now,
                    imported,
                );
                PassOutcome {
                    ok: rest.ok,
                    status: rest.status,
                    consumed: rest.consumed + 1,
                    dest_out: rest.dest_out,
                    wire_out: rest.wire_out,
                    imported: rest.imported,
                }
            },
            Some(Direction::Destination) => {
                if dfree == 0 {
                    PassOutcome {
                        ok: true,
                        status: TransferStatus::BlockedDestination,
                        consumed: 0,
                        dest_out: Seq::empty(),
                        wire_out: Seq::empty(),
                        imported,
                    }
                } else {
                    let rest = pass_from(
                        frames.drop_first(),
                        (dfree - 1) as nat,
                        wfree,
                        use_wire,
                        lookup,
                        targets,
                        cache0,
                        ns,
                        now,
                        imported,
                    );
                    PassOutcome {
                        ok: rest.ok,
                        status: rest.status,
                        consumed: rest.consumed + 1,
                        dest_out: seq![f] + rest.dest_out,
                        wire_out: rest.wire_out,
                        imported: rest.imported,
                    }
                }
            },
            Some(Direction::Wire) => {
                let free = if use_wire {
                    wfree
                } else {
                    dfree
                };
                if free == 0 {
                    PassOutcome {
                        ok: true,
                        status: TransferStatus::BlockedWire,
                        consumed: 0,
                        dest_out: Seq::empty(),
                        wire_out: Seq::empty(),
                        imported,
                    }
                } else if !inner_parses(f) {
                    let rest = pass_from(
                        frames.drop_first(),
                        dfree,
                        wfree,
                        use_wire,
                        lookup,
                        targets,
                        cache0,
                        ns,
                        now,
                        imported,
                    );
                    PassOutcome {
                        ok: rest.ok,
                        status: rest.status,
                        consumed: rest.consumed + 1,
                        dest_out: rest.dest_out,
                        wire_out: rest.wire_out,
                        imported: rest.imported,
                    }
                } else {
                    let h = flow_hash_of(inner_source(f), inner_destination(f), inner_protocol(f));
                    let bip = route_target(lookup, targets, h);
                    let mac = pass_mac(cache0, ns, now, imported, bip);
                    let imported2 = imported || fresh_mac(cache0, bip, now) is None;
                    match mac {
                        None => {
                            let rest = pass_from(
                                frames.drop_first(),
                                dfree,
                                wfree,
                                use_wire,
                                lookup,
                                targets,
                                cache0,
                                ns,
                                now,
                                imported2,
                            );
                            PassOutcome {
                                ok: rest.ok,
                                status: rest.status,
                                consumed: rest.consumed + 1,
                                dest_out: rest.dest_out,
                                wire_out: rest.wire_out,
                                imported: rest.imported,
                            }
                        },
                        Some(m) => {
                            let rw = rewrite_spec(f, bip, m);
                            if use_wire {
                                let rest = pass_from(
                                    frames.drop_first(),
                                    dfree,
                                    (wfree - 1) as nat,
                                    use_wire,
                                    lookup,
                                    targets,
                                    cache0,
                                    ns,
                                    now,
                                    imported2,
                                );
                                PassOutcome {
                                    ok: rest.ok,
                                    status: rest.status,
                                    consumed: rest.consumed + 1,
                                    dest_out: rest.dest_out,
                                    wire_out: seq![rw] + rest.wire_out,
                                    imported: rest.imported,
                                }
                            } else {
                                let rest = pass_from(
                                    frames.drop_first(),
                                    (dfree - 1) as nat,
                                    wfree,
                                    use_wire,
                                    lookup,
                                    targets,
                                    cache0,
                                    ns,
                                    now,
                                    imported2,
                                );
                                PassOutcome {
                                    ok: rest.ok,
                                    status: rest.status,
                                    consumed: rest.consumed + 1,
                                    dest_out: seq![rw] + rest.dest_out,
                                    wire_out: rest.wire_out,
                                    imported: rest.imported,
                                }
                            }
                        },
                    }
                }
            },
        }
    }
}

/// The outcome of one pass given the rings, table and cache as the pass
/// begins.
pub open spec fn pass_outcome(
    src: Ring,
    dst: Ring,
    wire: Ring,
    use_wire: bool,
    routes: ConsistentHash,
    cache: Seq<(u32, CacheEntry)>,
    ns: Seq<Neighbour>,
    now: u64,
) -> PassOutcome {
    pass_from(
        Seq::new((src.tail - src.cur) as nat, |k: int| src.content(src.cur + k)),
        (dst.tail - dst.cur) as nat,
        (wire.tail - wire.cur) as nat,
        use_wire,
        routes.lookup@,
        targets_of(routes.backends@),
        cache,
        ns,
        now,
        false,
    )
}

/// Copy the received bytes of `src`'s slot `i` into slot `j` of `ring`,
/// truncating the TX view to the RX length, and set the TX slot's length.
#[verifier::loop_isolation(false)]
fn copy_slot_bytes(ring: &mut Ring, j: usize, src: &Ring, i: usize)
    requires
        i < src.slots@.len(),
        src.slots@[i as int].len <= src.slots@[i as int].buf@.len(),
        j < old(ring).slots@.len(),
        src.slots@[i as int].len <= old(ring).slots@[j as int].buf@.len(),
    ensures
        final(ring).slots@.len() == old(ring).slots@.len(),
        final(ring).head == old(ring).head,
        final(ring).cur == old(ring).cur,
        final(ring).tail == old(ring).tail,
        forall|t: int|
            0 <= t < old(ring).slots@.len() && t != j ==> final(ring).slots@[t] == old(
                ring,
            ).slots@[t],
        final(ring).slots@[j as int].len == src.slots@[i as int].len,
        final(ring).slots@[j as int].buf@.len() == old(ring).slots@[j as int].buf@.len(),
        final(ring).content(j as int) == src.content(i as int),
        final(ring).slots@[j as int].buf@.skip(src.slots@[i as int].len as int) == old(
            ring,
        ).slots@[j as int].buf@.skip(src.slots@[i as int].len as int),
{
    let len = src.slots[i].len;
    let mut k: usize = 0;
    while k < len
        invariant
            k <= len,
            ring.slots@.len() == old(ring).slots@.len(),
            ring.head == old(ring).head,
            ring.cur == old(ring).cur,
            ring.tail == old(ring).tail,
            forall|t: int|
                0 <= t < old(ring).slots@.len() && t != j ==> ring.slots@[t] == old(
                    ring,
                ).slots@[t],
            ring.slots@[j as int].len == old(ring).slots@[j as int].len,
            ring.slots@[j as int].buf@.len() == old(ring).slots@[j as int].buf@.len(),
            forall|t: int|
                0 <= t < k ==> ring.slots@[j as int].buf@[t] == src.slots@[i as int].buf@[t],
            forall|t: int|
                k <= t < ring.slots@[j as int].buf@.len() ==> ring.slots@[j as int].buf@[t] == old(
                    ring,
                ).slots@[j as int].buf@[t],
        decreases len - k,
    {
        let byte = src.slots[i].buf[k];
        ring.slots[j].buf[k] = byte;
        k = k + 1;
    }
    ring.slots[j].len = len;
    proof {
        assert(final(ring).content(j as int) =~= src.content(i as int));
        assert(final(ring).slots@[j as int].buf@.skip(len as int) =~= old(
            ring,
        ).slots@[j as int].buf@.skip(len as int));
    }
}

/// Move every pending frame from `src` to its egress: `dst` for
/// Destination traffic, `wire` (when `use_wire` is set) for steered Wire
/// traffic. When an egress is full the pass stops, the blocking frame
/// stays pending, nothing is committed, and the matching blocked status
/// is returned; after a complete pass every touched ring's cursor is
/// committed. A frame that does not parse stops the pass with an error.
///
/// The interface address arguments are accepted for symmetry with the
/// poll driver's call; the rewrite itself takes both addresses from the
/// frame, as the frame arrived addressed to this host.
#[verifier::loop_isolation(false)]
#[verifier::rlimit(100)]
pub fn move_packets(
    src: &mut Ring,
    dst: &mut Ring,
    wire: &mut Ring,
    use_wire: bool,
    interface_ipv4: u32,
    interface_mac: &MacAddress,
    routes: &ConsistentHash,
    arp_cache: &mut Cache,
    neighbours: &Vec<Neighbour>,
    now: u64,
) -> (r: Result<TransferStatus, BrokenRail>)
    requires
        old(src).wf(),
        old(dst).wf(),
        old(wire).wf(),
        routes.wf(),
        old(arp_cache).wf(),
        now + TTL_SECONDS <= u64::MAX,
        forall|i: int, j: int|
            #![auto]
            old(src).cur <= i < old(src).tail && old(dst).cur <= j < old(dst).tail ==> old(
                src,
            ).slots@[i].len <= old(dst).slots@[j].buf@.len(),
        use_wire ==> forall|i: int, j: int|
            #![auto]
            old(src).cur <= i < old(src).tail && old(wire).cur <= j < old(wire).tail ==> old(
                src,
            ).slots@[i].len <= old(wire).slots@[j].buf@.len(),
    ensures
        ({
            let out = pass_outcome(
                *old(src),
                *old(dst),
                *old(wire),
                use_wire,
                *routes,
                old(arp_cache).entries@,
                neighbours@,
                now,
            );
            &&& match r {
                Ok(status) => out.ok && status == out.status,
                Err(e) => !out.ok && e == BrokenRail::BadPacket,
            }
            &&& final(src).wf() && final(dst).wf() && final(wire).wf() && final(arp_cache).wf()
            &&& final(src).slots@ == old(src).slots@
            &&& final(src).tail == old(src).tail
            &&& final(src).cur == old(src).cur + out.consumed
            &&& final(src).head == (if out.ok && out.status is Complete {
                final(src).cur
            } else {
                old(src).head
            })
            &&& final(dst).slots@.len() == old(dst).slots@.len()
            &&& final(dst).tail == old(dst).tail
            &&& final(dst).cur == old(dst).cur + out.dest_out.len()
            &&& final(dst).head == (if out.ok && out.status is Complete {
                final(dst).cur
            } else {
                old(dst).head
            })
            &&& forall|t: int|
                0 <= t < final(dst).slots@.len() && !(old(dst).cur <= t < final(dst).cur)
                    ==> final(dst).slots@[t] == old(dst).slots@[t]
            &&& forall|t: int|
                0 <= t < out.dest_out.len() ==> final(dst).content(old(dst).cur + t)
                    == out.dest_out[t]
            &&& final(wire).slots@.len() == old(wire).slots@.len()
            &&& final(wire).tail == old(wire).tail
            &&& final(wire).cur == old(wire).cur + out.wire_out.len()
            &&& final(wire).head == (if use_wire && out.ok && out.status is Complete {
                final(wire).cur
            } else {
                old(wire).head
            })
            &&& forall|t: int|
                0 <= t < final(wire).slots@.len() && !(old(wire).cur <= t < final(wire).cur)
                    ==> final(wire).slots@[t] == old(wire).slots@[t]
            &&& forall|t: int|
                0 <= t < out.wire_out.len() ==> final(wire).content(old(wire).cur + t)
                    == out.wire_out[t]
            &&& (!use_wire ==> final(wire).slots@ == old(wire).slots@ && final(wire).head == old(
                wire,
            ).head && final(wire).cur == old(wire).cur && final(wire).tail == old(wire).tail)
            &&& (!out.imported ==> final(arp_cache).entries@ == old(arp_cache).entries@)
            &&& (out.imported ==> forall|p: u32|
                #[trigger] find_entry(final(arp_cache).entries@, p) == entry_after_import(
                    find_entry(old(arp_cache).entries@, p),
                    neighbour_mac(neighbours@, p),
                    now,
                ))
        }),
{
    let ghost frames = Seq::new(
        (old(src).tail - old(src).cur) as nat,
        |k: int| old(src).content(old(src).cur + k),
    );
    let ghost cache0 = old(arp_cache).entries@;
    let ghost lookupv = routes.lookup@;
    let ghost targets = targets_of(routes.backends@);
    let ghost full = pass_from(
        frames,
        (old(dst).tail - old(dst).cur) as nat,
        (old(wire).tail - old(wire).cur) as nat,
        use_wire,
        lookupv,
        targets,
        cache0,
        neighbours@,
        now,
        false,
    );
    proof {
        assert(full == pass_outcome(
            *old(src),
            *old(dst),
            *old(wire),
            use_wire,
            *routes,
            cache0,
            neighbours@,
            now,
        ));
    }
    let ghost mut imported: bool = false;
    proof {
        assert(frames.skip(0) =~= frames);
        assert(Seq::new(0nat, |t: int| dst.content(old(dst).cur + t)) =~= Seq::<Seq<u8>>::empty());
        assert(Seq::new(0nat, |t: int| wire.content(old(wire).cur + t)) =~= Seq::<Seq<u8>>::empty());
        assert(Seq::<Seq<u8>>::empty() + full.dest_out =~= full.dest_out);
        assert(Seq::<Seq<u8>>::empty() + full.wire_out =~= full.wire_out);
    }
    while src.cur < src.tail
        invariant
            src.slots@ == old(src).slots@,
            src.head == old(src).head,
            src.tail == old(src).tail,
            old(src).cur <= src.cur <= src.tail,
            dst.slots@.len() == old(dst).slots@.len(),
            dst.head == old(dst).head,
            dst.tail == old(dst).tail,
            old(dst).cur <= dst.cur <= dst.tail,
            dst.wf(),
            forall|t: int|
                0 <= t < dst.slots@.len() && !(old(dst).cur <= t < dst.cur) ==> dst.slots@[t]
                    == old(dst).slots@[t],
            forall|t: int|
                old(dst).cur <= t < dst.cur ==> (#[trigger] dst.slots@[t]).buf@.len() == old(
                    dst,
                ).slots@[t].buf@.len(),
            wire.slots@.len() == old(wire).slots@.len(),
            wire.head == old(wire).head,
            wire.tail == old(wire).tail,
            old(wire).cur <= wire.cur <= wire.tail,
            wire.wf(),
            forall|t: int|
                0 <= t < wire.slots@.len() && !(old(wire).cur <= t < wire.cur) ==> wire.slots@[t]
                    == old(wire).slots@[t],
            forall|t: int|
                old(wire).cur <= t < wire.cur ==> (#[trigger] wire.slots@[t]).buf@.len() == old(
                    wire,
                ).slots@[t].buf@.len(),
            !use_wire ==> wire.cur == old(wire).cur,
            arp_cache.wf(),
            !imported ==> arp_cache.entries@ == cache0,
            imported ==> forall|p: u32|
                #[trigger] find_entry(arp_cache.entries@, p) == entry_after_import(
                    find_entry(cache0, p),
                    neighbour_mac(neighbours@, p),
                    now,
                ),
            ({
                let rest = pass_from(
                    frames.skip(src.cur - old(src).cur),
                    (dst.tail - dst.cur) as nat,
                    (wire.tail - wire.cur) as nat,
                    use_wire,
                    lookupv,
                    targets,
                    cache0,
                    neighbours@,
                    now,
                    imported,
                );
                &&& full.ok == rest.ok
                &&& full.status == rest.status
                &&& full.consumed == src.cur - old(src).cur + rest.consumed
                &&& full.dest_out == Seq::new(
                    (dst.cur - old(dst).cur) as nat,
                    |t: int| dst.content(old(dst).cur + t),
                ) + rest.dest_out
                &&& full.wire_out == Seq::new(
                    (wire.cur - old(wire).cur) as nat,
                    |t: int| wire.content(old(wire).cur + t),
                ) + rest.wire_out
                &&& full.imported == rest.imported
            }),
        decreases src.tail - src.cur,
    {
        let ghost k = src.cur - old(src).cur;
        let ghost rest = pass_from(
            frames.skip(k),
            (dst.tail - dst.cur) as nat,
            (wire.tail - wire.cur) as nat,
            use_wire,
            lookupv,
            targets,
            cache0,
            neighbours@,
            now,
            imported,
        );
        let ghost f = frames[k];
        let ghost emitted_d = Seq::new(
            (dst.cur - old(dst).cur) as nat,
            |t: int| dst.content(old(dst).cur + t),
        );
        let ghost emitted_w = Seq::new(
            (wire.cur - old(wire).cur) as nat,
            |t: int| wire.content(old(wire).cur + t),
        );
        proof {
            assert(frames.skip(k)[0] == frames[k]);
            assert(frames.skip(k).drop_first() =~= frames.skip(k + 1));
            assert(frames[k] == src.content(src.cur as int));
        }
        let len = src.slots[src.cur].len;
        let d = match classify(&src.slots[src.cur].buf, len) {
            Ok(d) => d,
            Err(e) => {
                proof {
                    assert(full.dest_out =~= emitted_d);
                    assert(full.wire_out =~= emitted_w);
                }
                return Err(e);
            },
        };
        match d {
            Direction::Drop => {
                src.cur = src.cur + 1;
            },
            Direction::Destination => {
                if dst.cur == dst.tail {
                    proof {
                        assert(full.dest_out =~= emitted_d);
                        assert(full.wire_out =~= emitted_w);
                    }
                    return Ok(TransferStatus::BlockedDestination);
                }
                let j = dst.cur;
                copy_slot_bytes(dst, j, src, src.cur);
                dst.cur = dst.cur + 1;
                src.cur = src.cur + 1;
                proof {
                    let rest2 = pass_from(
                        frames.skip(k + 1),
                        (dst.tail - dst.cur) as nat,
                        (wire.tail - wire.cur) as nat,
                        use_wire,
                        lookupv,
                        targets,
                        cache0,
                        neighbours@,
                        now,
                        imported,
                    );
                    assert(rest.dest_out == seq![f] + rest2.dest_out);
                    assert(Seq::new(
                        (dst.cur - old(dst).cur) as nat,
                        |t: int| dst.content(old(dst).cur + t),
                    ) =~= emitted_d + seq![f]);
                    assert((emitted_d + seq![f]) + rest2.dest_out =~= emitted_d + (seq![f]
                        + rest2.dest_out));
                }
            },
            Direction::Wire => {
                let wire_full = if use_wire {
                    wire.cur == wire.tail
                } else {
                    dst.cur == dst.tail
                };
                if wire_full {
                    proof {
                        assert(full.dest_out =~= emitted_d);
                        assert(full.wire_out =~= emitted_w);
                    }
                    return Ok(TransferStatus::BlockedWire);
                }
                if !check_inner(&src.slots[src.cur].buf, len) {
                    src.cur = src.cur + 1;
                } else {
                    let h = gre_flow_hash(&src.slots[src.cur].buf, len);
                    let idx = routes.route(h);
                    let bip = routes.backends[idx].target;
                    proof {
                        assert(bip == route_target(lookupv, targets, h));
                    }
                    let ghost cache_pre = arp_cache.entries@;
                    let mac = arp_cache.lookup(bip, neighbours, now);
                    proof {
                        if !imported {
                            if fresh_mac(cache0, bip, now) is Some {
                                assert(mac == pass_mac(cache0, neighbours@, now, imported, bip));
                            } else {
                                assert(find_entry(arp_cache.entries@, bip) == entry_after_import(
                                    find_entry(cache0, bip),
                                    neighbour_mac(neighbours@, bip),
                                    now,
                                ));
                                assert(mac == fresh_after_import(cache0, neighbours@, now, bip));
                            }
                        } else {
                            assert(find_entry(cache_pre, bip) == entry_after_import(
                                find_entry(cache0, bip),
                                neighbour_mac(neighbours@, bip),
                                now,
                            ));
                            if fresh_mac(cache_pre, bip, now) is Some {
                                assert(mac == fresh_after_import(cache0, neighbours@, now, bip));
                            } else {
                                assert forall|p: u32| true implies #[trigger] find_entry(
                                    arp_cache.entries@,
                                    p,
                                ) == entry_after_import(
                                    find_entry(cache0, p),
                                    neighbour_mac(neighbours@, p),
                                    now,
                                ) by {
                                    lemma_import_idempotent(
                                        find_entry(cache0, p),
                                        neighbour_mac(neighbours@, p),
                                        now,
                                    );
                                }
                                assert(mac == fresh_after_import(cache0, neighbours@, now, bip));
                            }
                        }
                        imported = imported || fresh_mac(cache0, bip, now) is None;
                    }
                    match mac {
                        None => {
                            src.cur = src.cur + 1;
                        },
                        Some(m) => {
                            if use_wire {
                                let j = wire.cur;
                                copy_slot_bytes(wire, j, src, src.cur);
                                rewrite_frame(&mut wire.slots[j].buf, len, bip, &m);
                                wire.cur = wire.cur + 1;
                                src.cur = src.cur + 1;
                                proof {
                                    let rw = rewrite_spec(f, bip, m);
                                    let rest2 = pass_from(
                                        frames.skip(k + 1),
                                        (dst.tail - dst.cur) as nat,
                                        (wire.tail - wire.cur) as nat,
                                        use_wire,
                                        lookupv,
                                        targets,
                                        cache0,
                                        neighbours@,
                                        now,
                                        imported,
                                    );
                                    assert(rest.wire_out == seq![rw] + rest2.wire_out);
                                    assert(wire.content(j as int) == rw);
                                    assert(Seq::new(
                                        (wire.cur - old(wire).cur) as nat,
                                        |t: int| wire.content(old(wire).cur + t),
                                    ) =~= emitted_w + seq![rw]);
                                    assert((emitted_w + seq![rw]) + rest2.wire_out =~= emitted_w
                                        + (seq![rw] + rest2.wire_out));
                                }
                            } else {
                                let j = dst.cur;
                                copy_slot_bytes(dst, j, src, src.cur);
                                rewrite_frame(&mut dst.slots[j].buf, len, bip, &m);
                                dst.cur = dst.cur + 1;
                                src.cur = src.cur + 1;
                                proof {
                                    let rw = rewrite_spec(f, bip, m);
                                    let rest2 = pass_from(
                                        frames.skip(k + 1),
                                        (dst.tail - dst.cur) as nat,
                                        (wire.tail - wire.cur) as nat,
                                        use_wire,
                                        lookupv,
                                        targets,
                                        cache0,
                                        neighbours@,
                                        now,
                                        imported,
                                    );
                                    assert(rest.dest_out == seq![rw] + rest2.dest_out);
                                    assert(dst.content(j as int) == rw);
                                    assert(Seq::new(
                                        (dst.cur - old(dst).cur) as nat,
                                        |t: int| dst.content(old(dst).cur + t),
                                    ) =~= emitted_d + seq![rw]);
                                    assert((emitted_d + seq![rw]) + rest2.dest_out =~= emitted_d
                                        + (seq![rw] + rest2.dest_out));
                                }
                            }
                        },
                    }
                }
            },
        }
    }
    proof {
        assert(frames.skip(src.cur - old(src).cur) =~= Seq::<Seq<u8>>::empty());
        assert(full.dest_out =~= Seq::new(
            (dst.cur - old(dst).cur) as nat,
            |t: int| dst.content(old(dst).cur + t),
        ));
        assert(full.wire_out =~= Seq::new(
            (wire.cur - old(wire).cur) as nat,
            |t: int| wire.content(old(wire).cur + t),
        ));
        if !use_wire {
            assert(wire.slots@ =~= old(wire).slots@);
        }
    }
    src.head_from_cur();
    dst.head_from_cur();
    if use_wire {
        wire.head_from_cur();
    }
    Ok(TransferStatus::Complete)
}

} // verus!
