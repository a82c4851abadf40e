//! A user-space packet forwarder core: a Maglev-style consistent-hash table
//! over backend targets, an ARP cache with bounded TTL, a packet classifier
//! for Ethernet/IPv4/GRE frames, and the steering engine that moves packets
//! between ring buffers with backpressure.

pub mod addrs;
pub mod arith;
pub mod arpcache;
pub mod configuration;
pub mod consistenthash;
pub mod driver;
pub mod engine;
pub mod error;
pub mod packet;
pub mod primes;

pub use engine::{move_packets, PassOutcome, Ring, Slot, TransferStatus};
