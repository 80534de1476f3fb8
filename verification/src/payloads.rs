//! The request and response bodies of the broker's HTTP surface, as
//! plain data.

use vstd::prelude::*;

verus! {

/// Nodes each proxy contributes to a chunk.
pub const CHUNK_HALF_NODE_NUM: usize = 2;

/// The broker's own adjustable configuration.
#[derive(Clone, Debug)]
pub struct MemBrokerConfigPayload {
    pub replica_addresses: Vec<String>,
}

/// Registration data of a proxy resource.
#[derive(Clone, Debug)]
pub struct ProxyResourcePayload {
    pub proxy_address: String,
    pub nodes: [String; 2],
    pub host: Option<String>,
    pub index: Option<usize>,
}

/// Body of a cluster creation request.
#[derive(Clone, Copy, Debug, PartialEq, Eq, Structural)]
pub struct CreateClusterPayload {
    pub node_number: usize,
}

/// Body of a scale-to-total request.
#[derive(Clone, Copy, Debug, PartialEq, Eq, Structural)]
pub struct AutoScaleUpNodesPayload {
    pub cluster_node_number: usize,
}

/// Body of an add-free-nodes request.
#[derive(Clone, Copy, Debug, PartialEq, Eq, Structural)]
pub struct AutoAddNodesPayload {
    pub node_number: usize,
}

/// Hosts whose loss the free pool could not absorb.
#[derive(Clone, Debug)]
pub struct ResourceFailureCheckPayload {
    pub hosts_cannot_fail: Vec<String>,
}

} // verus!
