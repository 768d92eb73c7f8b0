//! What the bridge counts.

use vstd::prelude::*;

verus! {

/// Counts of what happened, in one step or over many.
#[derive(Debug, Clone, Copy)]
pub struct BridgeMetrics {
    pub connections_opened: u64,
    pub connections_closed: u64,
    pub frames_received: u64,
    pub frames_executed: u64,
    pub bytes_received: u64,
    pub bytes_sent: u64,
    /// Keepalives that routers sent.
    pub keepalives_received: u64,
    /// Frames that break the format or a limit.
    pub client_errors: u64,
    /// Requests that the cluster did not answer.
    pub execute_errors: u64,
    /// Connections closed for want of bytes.
    pub timeouts: u64,
    /// Searches for the next frame after an error.
    pub resyncs: u64,
}

/// Nothing happened.
pub open spec fn nothing_counted() -> BridgeMetrics {
    BridgeMetrics {
        connections_opened: 0,
        connections_closed: 0,
        frames_received: 0,
        frames_executed: 0,
        bytes_received: 0,
        bytes_sent: 0,
        keepalives_received: 0,
        client_errors: 0,
        execute_errors: 0,
        timeouts: 0,
        resyncs: 0,
    }
}

/// The counters under the names by which they are published.
pub open spec fn published(counts: BridgeMetrics) -> Seq<(Seq<char>, u64)> {
    seq![
        ("rzbridge_connections_opened_total"@, counts.connections_opened),
        ("rzbridge_connections_closed_total"@, counts.connections_closed),
        ("rzbridge_frames_received_total"@, counts.frames_received),
        ("rzbridge_frames_executed_total"@, counts.frames_executed),
        ("rzbridge_bytes_received_total"@, counts.bytes_received),
        ("rzbridge_bytes_sent_total"@, counts.bytes_sent),
        ("rzbridge_keepalives_received_total"@, counts.keepalives_received),
        ("rzbridge_client_errors_total"@, counts.client_errors),
        ("rzbridge_execute_errors_total"@, counts.execute_errors),
        ("rzbridge_timeouts_total"@, counts.timeouts),
        ("rzbridge_resyncs_total"@, counts.resyncs),
    ]
}

impl BridgeMetrics {
    /// All counters at 0.
    pub fn new() -> (counts: Self)
        ensures
            counts == nothing_counted(),
    {
        BridgeMetrics {
            connections_opened: 0,
            connections_closed: 0,
            frames_received: 0,
            frames_executed: 0,
            bytes_received: 0,
            bytes_sent: 0,
            keepalives_received: 0,
            client_errors: 0,
            execute_errors: 0,
            timeouts: 0,
            resyncs: 0,
        }
    }

    /// Each counter with the name by which it is published.
    pub fn counters(&self) -> (named: Vec<(&'static str, u64)>)
        ensures
            named@.map_values(|c: (&'static str, u64)| (c.0@, c.1)) == published(*self),
    {
        let mut named: Vec<(&'static str, u64)> = Vec::new();
        named.push(("rzbridge_connections_opened_total", self.connections_opened));
        named.push(("rzbridge_connections_closed_total", self.connections_closed));
        named.push(("rzbridge_frames_received_total", self.frames_received));
        named.push(("rzbridge_frames_executed_total", self.frames_executed));
        named.push(("rzbridge_bytes_received_total", self.bytes_received));
        named.push(("rzbridge_bytes_sent_total", self.bytes_sent));
        named.push(("rzbridge_keepalives_received_total", self.keepalives_received));
        named.push(("rzbridge_client_errors_total", self.client_errors));
        named.push(("rzbridge_execute_errors_total", self.execute_errors));
        named.push(("rzbridge_timeouts_total", self.timeouts));
        named.push(("rzbridge_resyncs_total", self.resyncs));
        proof {
            assert(named@.map_values(|c: (&'static str, u64)| (c.0@, c.1)) =~= published(*self));
        }
        named
    }
}

} // verus!
