//! The seeder's fixed limits and intervals.
use vstd::prelude::*;

verus! {

/// Maximum number of concurrent outgoing peer connections.
pub const MAX_CONCURRENT_CONNECTIONS: usize = 128;

/// Time to live of the DNS records, in seconds.
pub const DNS_RECORD_TTL: u32 = 300;

/// Maximum number of records in a DNS response.
pub const MAX_RECORDS_TO_RETURN: usize = 32;

/// Seconds between two rounds that push expired peers back into the queue.
pub const PEER_RECHECK_INTERVAL: u64 = 300;

/// Largest number of expired peers that one recheck round looks at.
pub const PEER_RECHECK_BATCH_SIZE: usize = 1024;

/// Seconds a peer has for connection, handshake and its answer to the request
/// for peers.
pub const PEER_TIMEOUT: u64 = 8;

/// Seconds until a reachable peer is pushed back into the recheck queue.
pub const PEER_REACHABLE_TTL: u64 = 3600;

/// Seconds that must pass before an unreachable peer can be considered for
/// connection again.
pub const PEER_UNREACHABLE_TTL: u64 = 86400;

/// The limits are 128 connections at a time, 32 records to an answer and 1024 expired peers to a
/// round. Records are kept for five minutes, which is also the time between rounds; a peer has
/// eight seconds, is tried again an hour after it answered, and a day after it did not.
pub proof fn law_fixed_limits()
    ensures
        MAX_CONCURRENT_CONNECTIONS == 128,
        MAX_RECORDS_TO_RETURN == 32,
        PEER_RECHECK_BATCH_SIZE == 1024,
        DNS_RECORD_TTL == 5 * 60,
        PEER_RECHECK_INTERVAL == 5 * 60,
        PEER_TIMEOUT == 8,
        PEER_REACHABLE_TTL == 60 * 60,
        PEER_UNREACHABLE_TTL == 24 * 60 * 60,
{
}

} // verus!
