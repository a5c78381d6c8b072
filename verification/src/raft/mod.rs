//! Consensus: the rules of Raft, the messages that nodes exchange, and what a node does
//! with each.
//!
//! See also <https://raft.github.io/raft.pdf>.
pub mod cluster;
pub mod command;
pub mod completeness;
pub mod engine;
pub mod formats;
pub mod http;
pub mod kv;
pub mod laws;
pub mod log;
pub mod machine;
pub mod maelstrom;
pub mod median;
pub mod metrics;
pub mod model;
pub mod node;
pub mod persistence;
pub mod progress;
pub mod protocol;
pub mod proxy;
pub mod rpc;
pub mod safety;
pub mod serde;
pub mod service;
pub mod state;

use vstd::prelude::*;

verus! {

/// Identifier for nodes in the cluster.
pub type NodeID = String;

/// Timeout for elections, in nanoseconds.
///
/// If we do not receive communications within this period, assume there is no leader.
///
/// Should be a few orders of magnitude **less** than the expected Mean Time Between
/// Failures (= node crashes) and one order of magnitude **greater** than broadcast time
/// ("average time it takes a server to send RPCs in parallel to every server in the
/// cluster and receive their responses").
///
/// Note, next to network latency, broadcast time also includes disk I/O, as nodes must
/// persist state to stable storage before responding to Raft RPCs.
pub const ELECTION_TIMEOUT: u64 = 100_000_000;

/// Interval at which heartbeats (empty AppendEntries RPCs) are emitted, if no regular
/// AppendEntries were emitted in the meantime. In nanoseconds.
pub const HEARTBEAT_INTERVAL: u64 = 50_000_000;

/// Minimum time between log replications emitted from leaders. In nanoseconds.
///
/// Client requests and leadership promotion can trigger opportunistic, immediate
/// replication events; this interval rate limits those events, allowing batching for
/// better network utilization (1 RPC with N messages over N RPCs with 1 message each).
pub const MIN_REPLICATION_INTERVAL: u64 = 5_000_000;

/// Limit inflight concurrency to this number of most recent proxied requests.
///
/// Proxied queries occur when a client contacts a non-leader node, which on behalf of
/// the client forwards the request to the (suspected) current leader for a response
/// (transparently to the client).
///
/// Note: not specific to core Raft. An optimization to allow any client to contact any
/// node for a response (Raft is transparent to clients).
pub const MAX_INFLIGHT_PROXIES: usize = 1_024;

} // verus!
