//! Command-line options.

use vstd::prelude::*;

verus! {

/// Where network events are loaded from, if there is a file at that path.
pub const DEFAULT_NETWORK_EVENTS_PATH: &'static str = "events.json";

/// Where traffic patterns are loaded from, if there is a file at that path.
pub const DEFAULT_TRAFFIC_PATH: &'static str = "traffic.json";

pub struct NetworkOpt {
    /// Whether the seeds of the random number generators come from a source of entropy
    pub non_deterministic: bool,
    /// The seed for the QUIC implementation
    pub quinn_rng_seed: u64,
    /// The seed for the simulated network (governing packet loss, duplication and reordering)
    pub network_rng_seed: u64,
    /// Path to the network graph
    pub network_graph: String,
    /// Path to the network events
    pub network_events: Option<String>,
    /// Run without network events
    pub no_network_events: bool,
}

impl NetworkOpt {
    /// The path from which network events are to be loaded, if any. `default_exists` says whether
    /// there is a file at the default path.
    pub fn network_events(&self, default_exists: bool) -> (r: Option<String>)
        ensures
            match r {
                None => self.no_network_events || (self.network_events is None && !default_exists),
                Some(path) => !self.no_network_events && match self.network_events {
                    Some(chosen) => path == chosen,
                    None => default_exists && path@ == DEFAULT_NETWORK_EVENTS_PATH@,
                },
            },
    {
        if self.no_network_events {
            None
        } else {
            match &self.network_events {
                Some(path) => Some(path.clone()),
                None => if default_exists {
                    Some(DEFAULT_NETWORK_EVENTS_PATH.to_owned())
                } else {
                    None
                },
            }
        }
    }
}

pub struct RtOpt {
    /// Disable time warping (making the simulation use real-world delays)
    pub disable_time_warping: bool,
    /// Show stats for each node, not only for the client and server nodes
    pub verbose_node_stats: bool,
}

pub struct SimulateOpt {
    /// Path to the traffic patterns
    pub traffic: Option<String>,
    pub rt: RtOpt,
    pub network: NetworkOpt,
}

impl SimulateOpt {
    /// The path from which traffic patterns are to be loaded, if any. `default_exists` says whether
    /// there is a file at the default path.
    pub fn traffic_path(&self, default_exists: bool) -> (r: Option<String>)
        ensures
            match r {
                None => self.traffic is None && !default_exists,
                Some(path) => match self.traffic {
                    Some(chosen) => path == chosen,
                    None => default_exists && path@ == DEFAULT_TRAFFIC_PATH@,
                },
            },
    {
        match &self.traffic {
            Some(path) => Some(path.clone()),
            None => if default_exists {
                Some(DEFAULT_TRAFFIC_PATH.to_owned())
            } else {
                None
            },
        }
    }
}

} // verus!
