//! Fixed parameters of the node.
use vstd::prelude::*;

verus! {

/// Lower bound, in seconds, of the random pause between routing table refreshes.
pub const REFRESH_TIMER_LOWER: u64 = 5;

/// Upper bound, in seconds, of the random pause between routing table refreshes.
pub const REFRESH_TIMER_UPPER: u64 = 20;

/// Lower bound, in seconds, of the random pause between liveness sweeps.
pub const PING_TIMER_LOWER: u64 = 5;

/// Upper bound, in seconds, of the random pause between liveness sweeps.
pub const PING_TIMER_UPPER: u64 = 20;

/// Number of peers probed by one liveness sweep.
pub const N: usize = 5;

/// Seconds allowed for one attempt of an outbound request.
pub const TIMEOUT_TIMER: u64 = 100;

/// Attempts made for an outbound request before it fails for good.
pub const TIMEOUT_MAX_ATTEMPTS: u64 = 3;

/// Capacity of a bucket, and the number of peers a closest-peers query returns.
pub const K: usize = 20;

/// Length of a node identifier in bytes.
pub const ID_LEN: usize = 20;

/// Number of bits of a node identifier, and the number of buckets.
pub const N_BITS: usize = 160;

/// Leading zero bits that the hash of a node's public key must have.
pub const C1: u32 = 1;

/// Largest difference, in seconds, between a request's timestamp and the clock.
pub const REPLAY_WINDOW: i64 = 120;

/// Largest difference between a request's nonce and the last one accepted from its sender.
pub const NONCE_INTERVAL: i64 = 10;

/// Largest number of routing table entries that may share one IP address.
pub const MAX_NODES_PER_IP: usize = 5;

/// A peer whose reputation falls below this value is removed and banned.
pub const REPUTATION_THRESHOLD: i32 = -5;

} // verus!
