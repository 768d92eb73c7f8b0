//! What a bridge is told when it starts.

use crate::text::{decimal, decimal_text, joined};
use vstd::prelude::*;

verus! {

/// Settings of one bridge instance.
#[derive(Debug, Clone)]
pub struct Config {
    /// Zone of this bridge.
    pub zone_id: String,
    /// Shard that this bridge serves.
    pub shard_id: String,
    /// Name of this bridge.
    pub bridge_id: String,
    /// Address of the RzID service.
    pub rzid_addr: String,
    /// Address of the RzPoint resolver.
    pub rzpoint_addr: String,
    /// API port of a Roomzin node.
    pub roomzin_api_port: u16,
    /// TCP port of a Roomzin node.
    pub roomzin_tcp_port: u16,
    /// Seconds between two heartbeats to RzID.
    pub rzid_heartbeat_interval_secs: u64,
    /// Host that the TCP server listens on.
    pub listen_host: String,
    /// Port that the TCP server listens on.
    pub listen_port: u16,
    /// Connections to each Roomzin node.
    pub conn_per_roomzin_node: usize,
    /// Most active connections.
    pub max_active_conns: usize,
    /// Most connections from routers at a time.
    pub max_connections: usize,
    /// Request timeout in seconds.
    pub timeout_sec: u64,
    /// HTTP timeout in seconds.
    pub http_timeout_sec: u64,
    /// Keep-alive interval in seconds.
    pub keep_alive_sec: u64,
    /// Seconds between two probes of the cluster.
    pub node_probe_interval_sec: u64,
    /// Worker threads; 0 takes three for each physical core.
    pub worker_threads: usize,
}

/// `num_cpus::get_physical`: the number of physical cores of this machine.
///
/// The number rests on the machine, so nothing is claimed of it.
#[verifier::external_body]
fn physical_cores() -> (cores: usize) {
    num_cpus::get_physical()
}

/// Worker threads for a setting and a number of physical cores: the setting,
/// or, where it is 0, three for each core and for one core at least. A count
/// that does not fit is cut to the largest `usize`.
pub open spec fn workers(worker_threads: usize, cores: usize) -> usize {
    if worker_threads != 0 {
        worker_threads
    } else if cores == 0 {
        3
    } else if 3 * cores > usize::MAX {
        usize::MAX
    } else {
        (3 * cores) as usize
    }
}

/// Worker threads for a setting and a number of physical cores.
pub fn worker_count(worker_threads: usize, cores: usize) -> (count: usize)
    ensures
        count == workers(worker_threads, cores),
        worker_threads != 0 ==> count == worker_threads,
        worker_threads == 0 && cores == 0 ==> count == 3,
        worker_threads == 0 && cores > 0 && 3 * cores <= usize::MAX ==> count == 3 * cores,
        worker_threads == 0 && 3 * cores > usize::MAX ==> count == usize::MAX,
{
    if worker_threads != 0 {
        return worker_threads;
    }
    if cores == 0 {
        return 3;
    }
    if cores > usize::MAX / 3 {
        return usize::MAX;
    }
    3 * cores
}

impl Config {
    /// Address that the TCP server binds to.
    pub fn listen_addr(&self) -> (addr: String)
        ensures
            addr@ == self.listen_host@ + ":"@ + decimal(self.listen_port as nat),
    {
        let host: String = joined(self.listen_host.as_str(), ":");
        joined(host.as_str(), decimal_text(self.listen_port as u64).as_str())
    }

    /// Worker threads: the setting, or three for each physical core of this
    /// machine where it is 0.
    pub fn effective_workers(&self) -> (count: usize)
        ensures
            count > 0,
            self.worker_threads != 0 ==> count == self.worker_threads,
            exists|cores: usize| count == workers(self.worker_threads, cores),
    {
        if self.worker_threads != 0 {
            proof {
                assert(self.worker_threads == workers(self.worker_threads, 0));
            }
            return self.worker_threads;
        }
        worker_count(self.worker_threads, physical_cores())
    }
}

} // verus!
