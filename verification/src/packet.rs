//! The packet classifier and the Wire rewrite: Ethernet/IPv4/GRE frames as
//! byte sequences, the routing decision for each frame, and the in-place
//! address rewrite with a recomputed IPv4 header checksum.

use vstd::prelude::*;
use crate::addrs::MacAddress;
use crate::error::BrokenRail;
use siphasher::sip::SipHasher;
use std::hash::Hasher;

verus! {

/// The ethertype carried by IPv4 frames, and by GRE for an inner IPv4
/// payload.
pub const ETHERTYPE_IPV4: u16 = 0x0800;

/// The IPv4 next-level protocol number of GRE.
pub const PROTO_GRE: u8 = 47;

/// The routing decision for one received frame: cross over to the other
/// side, steer out the wire to a backend, or consume silently.
#[derive(Clone, Copy, PartialEq, Eq, Structural, Debug)]
pub enum Direction {
    Destination,
    Drop,
    Wire,
}

/// The 16-bit big-endian value at offset `i`.
pub open spec fn be16(f: Seq<u8>, i: int) -> u16 {
    (f[i] as int * 0x100 + f[i + 1] as int) as u16
}

/// The 32-bit big-endian value at offset `i`.
pub open spec fn be32(f: Seq<u8>, i: int) -> u32 {
    (f[i] as int * 0x1000000 + f[i + 1] as int * 0x10000 + f[i + 2] as int * 0x100 + f[i
        + 3] as int) as u32
}

/// Big-endian byte `k` of a 32-bit value.
pub open spec fn u32_byte(x: u32, k: int) -> u8 {
    if k == 0 {
        (x as int / 0x1000000 % 0x100) as u8
    } else if k == 1 {
        (x as int / 0x10000 % 0x100) as u8
    } else if k == 2 {
        (x as int / 0x100 % 0x100) as u8
    } else {
        (x as int % 0x100) as u8
    }
}

/// The frame holds a full Ethernet header.
pub open spec fn eth_parses(f: Seq<u8>) -> bool {
    f.len() >= 14
}

/// The frame's ethertype.
pub open spec fn ethertype(f: Seq<u8>) -> u16 {
    be16(f, 12)
}

/// The outer IPv4 header's length in bytes, from its low nibble.
pub open spec fn ip_header_len(f: Seq<u8>) -> int {
    4 * (f[14] as int % 16)
}

/// The frame holds a full outer IPv4 header after the Ethernet header.
pub open spec fn ipv4_parses(f: Seq<u8>) -> bool {
    &&& f.len() >= 34
    &&& ip_header_len(f) >= 20
    &&& 14 + ip_header_len(f) <= f.len()
}

/// The outer IPv4 next-level protocol.
pub open spec fn ip_protocol(f: Seq<u8>) -> u8 {
    f[23]
}

/// The outer IPv4 source address.
pub open spec fn ip_source(f: Seq<u8>) -> u32 {
    be32(f, 26)
}

/// The outer IPv4 destination address.
pub open spec fn ip_destination(f: Seq<u8>) -> u32 {
    be32(f, 30)
}

/// Where the GRE header starts.
pub open spec fn gre_offset(f: Seq<u8>) -> int {
    14 + ip_header_len(f)
}

/// The frame holds the fixed part of a GRE header.
pub open spec fn gre_parses(f: Seq<u8>) -> bool {
    &&& ipv4_parses(f)
    &&& gre_offset(f) + 4 <= f.len()
}

/// The GRE inner protocol type.
pub open spec fn gre_protocol(f: Seq<u8>) -> u16 {
    be16(f, gre_offset(f) + 2)
}

/// The GRE header's length: four fixed bytes, plus four when a checksum or
/// routing field is present, four for a key, four for a sequence number.
pub open spec fn gre_header_len(f: Seq<u8>) -> int {
    let flags = f[gre_offset(f)] as int;
    4 + (if flags / 128 % 2 == 1 || flags / 64 % 2 == 1 {
        4int
    } else {
        0int
    }) + (if flags / 32 % 2 == 1 {
        4int
    } else {
        0int
    }) + (if flags / 16 % 2 == 1 {
        4int
    } else {
        0int
    })
}

/// Where the inner IPv4 header starts.
pub open spec fn inner_offset(f: Seq<u8>) -> int {
    gre_offset(f) + gre_header_len(f)
}

/// The frame holds the fixed part of an inner IPv4 header inside GRE.
pub open spec fn inner_parses(f: Seq<u8>) -> bool {
    &&& gre_parses(f)
    &&& inner_offset(f) + 20 <= f.len()
}

/// The inner IPv4 source address.
pub open spec fn inner_source(f: Seq<u8>) -> u32 {
    be32(f, inner_offset(f) + 12)
}

/// The inner IPv4 destination address.
pub open spec fn inner_destination(f: Seq<u8>) -> u32 {
    be32(f, inner_offset(f) + 16)
}

/// The inner IPv4 next-level protocol.
pub open spec fn inner_protocol(f: Seq<u8>) -> u8 {
    f[inner_offset(f) + 9]
}

/// The routing decision for a frame; nothing when the frame does not parse
/// at the Ethernet or outer IPv4 layer.
///
/// Frames that are not IPv4, and IPv4 frames that are not GRE, cross over
/// to the other side. GRE frames carrying inner IPv4 are steered out the
/// wire; GRE frames that do not parse or carry anything else are consumed.
pub open spec fn classify_spec(f: Seq<u8>) -> Option<Direction> {
    if !eth_parses(f) {
        None
    } else if ethertype(f) != ETHERTYPE_IPV4 {
        Some(Direction::Destination)
    } else if !ipv4_parses(f) {
        None
    } else if ip_protocol(f) != PROTO_GRE {
        Some(Direction::Destination)
    } else if !gre_parses(f) {
        Some(Direction::Drop)
    } else if gre_protocol(f) == ETHERTYPE_IPV4 {
        Some(Direction::Wire)
    } else {
        Some(Direction::Drop)
    }
}

/// Determine the direction for a single received frame of `len` bytes in
/// `frame`'s buffer.
pub fn classify(frame: &Vec<u8>, len: usize) -> (r: Result<Direction, BrokenRail>)
    requires
        len <= frame@.len(),
    ensures
        match r {
            Ok(d) => classify_spec(frame@.take(len as int)) == Some(d),
            Err(e) => classify_spec(frame@.take(len as int)) == None::<Direction> && e
                == BrokenRail::BadPacket,
        },
{
    let ghost f = frame@.take(len as int);
    if len < 14 {
        return Err(BrokenRail::BadPacket);
    }
    let etype: u16 = (frame[12] as u16) * 0x100 + (frame[13] as u16);
    if etype != ETHERTYPE_IPV4 {
        return Ok(Direction::Destination);
    }
    if len < 34 {
        return Err(BrokenRail::BadPacket);
    }
    let ihl_bytes: usize = (frame[14] as usize % 16) * 4;
    if ihl_bytes < 20 || 14 + ihl_bytes > len {
        return Err(BrokenRail::BadPacket);
    }
    if frame[23] != PROTO_GRE {
        return Ok(Direction::Destination);
    }
    let g = 14 + ihl_bytes;
    if g + 4 > len {
        return Ok(Direction::Drop);
    }
    let gproto: u16 = (frame[g + 2] as u16) * 0x100 + (frame[g + 3] as u16);
    if gproto == ETHERTYPE_IPV4 {
        return Ok(Direction::Wire);
    }
    Ok(Direction::Drop)
}

/// The named flow-hash digest of an inner IPv4 flow.
pub uninterp spec fn flow_hash_of(src: u32, dst: u32, proto: u8) -> u64;

/// Relies on siphasher's `SipHasher` (SipHash-2-4 with a zero key): the
/// digest of the three values written into it depends on them alone, so it
/// is the same in every process and on every machine.
#[verifier::external_body]
fn flow_hash(src: u32, dst: u32, proto: u8) -> (r: u64)
    ensures
        r == flow_hash_of(src, dst, proto),
{
    let mut s = SipHasher::new();
    s.write_u32(src);
    s.write_u32(dst);
    s.write_u8(proto);
    s.finish()
}

/// Read the flow hash of a GRE frame's inner IPv4 flow: the digest of the
/// inner source, inner destination and inner next-level protocol.
pub fn gre_flow_hash(frame: &Vec<u8>, len: usize) -> (r: u64)
    requires
        len <= frame@.len(),
        inner_parses(frame@.take(len as int)),
    ensures
        r == flow_hash_of(
            inner_source(frame@.take(len as int)),
            inner_destination(frame@.take(len as int)),
            inner_protocol(frame@.take(len as int)),
        ),
{
    let ghost f = frame@.take(len as int);
    let ihl_bytes: usize = (frame[14] as usize % 16) * 4;
    let g = 14 + ihl_bytes;
    let flags = frame[g];
    let mut h = g + 4;
    if flags / 128 % 2 == 1 || flags / 64 % 2 == 1 {
        h = h + 4;
    }
    if flags / 32 % 2 == 1 {
        h = h + 4;
    }
    if flags / 16 % 2 == 1 {
        h = h + 4;
    }
    assert(h == inner_offset(f));
    let src = read_be32(frame, h + 12);
    let dst = read_be32(frame, h + 16);
    let proto = frame[h + 9];
    assert(src == inner_source(f) && dst == inner_destination(f) && proto == inner_protocol(f));
    flow_hash(src, dst, proto)
}

/// Whether a GRE frame holds enough bytes for an inner IPv4 header.
pub fn check_inner(frame: &Vec<u8>, len: usize) -> (b: bool)
    requires
        len <= frame@.len(),
        gre_parses(frame@.take(len as int)),
    ensures
        b == inner_parses(frame@.take(len as int)),
{
    let ghost f = frame@.take(len as int);
    let ihl_bytes: usize = (frame[14] as usize % 16) * 4;
    let g = 14 + ihl_bytes;
    let flags = frame[g];
    let mut h = g + 4;
    if flags / 128 % 2 == 1 || flags / 64 % 2 == 1 {
        h = h + 4;
    }
    if flags / 32 % 2 == 1 {
        h = h + 4;
    }
    if flags / 16 % 2 == 1 {
        h = h + 4;
    }
    assert(h == inner_offset(f));
    h <= len && len - h >= 20
}

/// The 16-bit one's-complement sum of the big-endian byte pairs of
/// `f[lo..hi)`, before carry folding.
pub open spec fn sum16(f: Seq<u8>, lo: int, hi: int) -> nat
    decreases hi - lo,
{
    if hi - lo < 2 {
        0
    } else {
        be16(f, lo) as nat + sum16(f, lo + 2, hi)
    }
}

/// Fold the carries of a one's-complement sum into 16 bits.
pub open spec fn fold16(x: nat) -> nat
    decreases x,
{
    if x < 0x10000 {
        x
    } else {
        fold16((x / 0x10000 + x % 0x10000) as nat)
    }
}

/// The IPv4 header checksum of a frame whose stored checksum field is
/// zero: the complement of the folded word sum over the header.
pub open spec fn checksum_of(g: Seq<u8>) -> u16 {
    (0xFFFF - fold16(sum16(g, 14, 14 + ip_header_len(g)))) as u16
}

/// The frame after the Wire address rewrite, with the checksum field
/// cleared: Ethernet destination := the backend's MAC, Ethernet source :=
/// the previous destination, outer IPv4 source := the previous
/// destination address, outer IPv4 destination := the backend's address.
pub open spec fn rewrite_addrs(f: Seq<u8>, bip: u32, bmac: MacAddress) -> Seq<u8> {
    Seq::new(
        f.len(),
        |i: int|
            if 0 <= i < 6 {
                bmac.octets()[i]
            } else if 6 <= i < 12 {
                f[i - 6]
            } else if i == 24 || i == 25 {
                0u8
            } else if 26 <= i < 30 {
                f[i + 4]
            } else if 30 <= i < 34 {
                u32_byte(bip, i - 30)
            } else {
                f[i]
            },
    )
}

/// The frame after the full Wire rewrite: addresses replaced and the
/// outer IPv4 checksum recomputed.
pub open spec fn rewrite_spec(f: Seq<u8>, bip: u32, bmac: MacAddress) -> Seq<u8> {
    let g = rewrite_addrs(f, bip, bmac);
    let ck = checksum_of(g);
    g.update(24, (ck as int / 0x100) as u8).update(25, (ck as int % 0x100) as u8)
}

/// Rewrite the first `len` bytes of `buf` in place for the Wire
/// direction, leaving the rest of the buffer as it was.
#[verifier::loop_isolation(false)]
pub fn rewrite_frame(buf: &mut Vec<u8>, len: usize, bip: u32, bmac: &MacAddress)
    requires
        len <= old(buf)@.len(),
        ipv4_parses(old(buf)@.take(len as int)),
    ensures
        final(buf)@.len() == old(buf)@.len(),
        final(buf)@.take(len as int) == rewrite_spec(old(buf)@.take(len as int), bip, *bmac),
        final(buf)@.skip(len as int) == old(buf)@.skip(len as int),
{
    let ghost f = old(buf)@.take(len as int);
    let d0 = buf[0];
    let d1 = buf[1];
    let d2 = buf[2];
    let d3 = buf[3];
    let d4 = buf[4];
    let d5 = buf[5];
    buf[0] = bmac.o0;
    buf[1] = bmac.o1;
    buf[2] = bmac.o2;
    buf[3] = bmac.o3;
    buf[4] = bmac.o4;
    buf[5] = bmac.o5;
    buf[6] = d0;
    buf[7] = d1;
    buf[8] = d2;
    buf[9] = d3;
    buf[10] = d4;
    buf[11] = d5;
    let a0 = buf[30];
    let a1 = buf[31];
    let a2 = buf[32];
    let a3 = buf[33];
    buf[26] = a0;
    buf[27] = a1;
    buf[28] = a2;
    buf[29] = a3;
    buf[30] = (bip / 0x1000000 % 0x100) as u8;
    buf[31] = (bip / 0x10000 % 0x100) as u8;
    buf[32] = (bip / 0x100 % 0x100) as u8;
    buf[33] = (bip % 0x100) as u8;
    buf[24] = 0;
    buf[25] = 0;
    proof {
        assert(buf@.take(len as int) =~= rewrite_addrs(f, bip, *bmac));
        assert(buf@.skip(len as int) =~= old(buf)@.skip(len as int));
    }
    let ghost g = buf@.take(len as int);
    let ihl_bytes: usize = (buf[14] as usize % 16) * 4;
    let end: usize = 14 + ihl_bytes;
    assert(end == 14 + ip_header_len(g) && end <= len);
    let mut sum: u32 = 0;
    let mut off: usize = 14;
    while off < end
        invariant
            14 <= off <= end,
            off % 2 == 0,
            sum <= (off - 14) * 0x8000,
            sum + sum16(g, off as int, end as int) == sum16(g, 14, end as int),
        decreases end - off,
    {
        sum = sum + (buf[off] as u32) * 0x100 + (buf[off + 1] as u32);
        off = off + 2;
    }
    while sum > 0xFFFF
        invariant
            fold16(sum16(g, 14, end as int)) == fold16(sum as nat),
        decreases sum,
    {
        sum = sum / 0x10000 + sum % 0x10000;
    }
    let ck: u16 = (0xFFFFu32 - sum) as u16;
    assert(ck == checksum_of(g));
    buf[24] = (ck / 0x100) as u8;
    buf[25] = (ck % 0x100) as u8;
    proof {
        assert(buf@.take(len as int) =~= rewrite_spec(f, bip, *bmac));
        assert(buf@.skip(len as int) =~= old(buf)@.skip(len as int));
    }
}

/// Read the 32-bit big-endian value at offset `i`.
fn read_be32(frame: &Vec<u8>, i: usize) -> (r: u32)
    requires
        i + 4 <= frame@.len(),
    ensures
        r == be32(frame@, i as int),
{
    let n = frame.len();
    (frame[i] as u32) * 0x1000000 + (frame[i + 1] as u32) * 0x10000 + (frame[i + 2] as u32) * 0x100
        + (frame[i + 3] as u32)
}

} // verus!
