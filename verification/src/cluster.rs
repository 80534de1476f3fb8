//! The wire-level view of clusters that the coordinator works with: flat
//! lists of nodes with their slot ranges.

use vstd::prelude::*;

use crate::slots::SlotRange;

verus! {

/// One storage node of a cluster, as seen from outside.
#[derive(Clone, Debug)]
pub struct Node {
    address: String,
    proxy_address: String,
    cluster_name: String,
    slots: Vec<SlotRange>,
}

impl Node {
    pub fn new(
        address: String,
        proxy_address: String,
        cluster_name: String,
        slots: Vec<SlotRange>,
    ) -> (r: Node)
        ensures
            r.spec_address() == address,
            r.spec_proxy_address() == proxy_address,
            r.spec_cluster_name() == cluster_name,
            r.spec_slots() == slots,
    {
        Node { address, proxy_address, cluster_name, slots }
    }

    pub closed spec fn spec_address(self) -> String {
        self.address
    }

    pub closed spec fn spec_proxy_address(self) -> String {
        self.proxy_address
    }

    pub closed spec fn spec_cluster_name(self) -> String {
        self.cluster_name
    }

    pub closed spec fn spec_slots(self) -> Vec<SlotRange> {
        self.slots
    }

    pub fn get_address(&self) -> (r: &String)
        ensures
            r == self.spec_address(),
    {
        &self.address
    }

    pub fn get_proxy_address(&self) -> (r: &String)
        ensures
            r == self.spec_proxy_address(),
    {
        &self.proxy_address
    }

    pub fn get_cluster_name(&self) -> (r: &String)
        ensures
            r == self.spec_cluster_name(),
    {
        &self.cluster_name
    }

    pub fn get_slots(&self) -> (r: &Vec<SlotRange>)
        ensures
            r == self.spec_slots(),
    {
        &self.slots
    }

    pub fn into_slots(self) -> (r: Vec<SlotRange>)
        ensures
            r == self.spec_slots(),
    {
        self.slots
    }
}

/// A whole cluster as seen from outside: its epoch and its nodes.
#[derive(Clone, Debug)]
pub struct Cluster {
    name: String,
    epoch: u64,
    nodes: Vec<Node>,
}

impl Cluster {
    pub fn new(name: String, epoch: u64, nodes: Vec<Node>) -> (r: Cluster)
        ensures
            r.spec_name() == name,
            r.spec_epoch() == epoch,
            r.spec_nodes() == nodes,
    {
        Cluster { name, epoch, nodes }
    }

    pub closed spec fn spec_name(self) -> String {
        self.name
    }

    pub closed spec fn spec_epoch(self) -> u64 {
        self.epoch
    }

    pub closed spec fn spec_nodes(self) -> Vec<Node> {
        self.nodes
    }

    pub fn get_name(&self) -> (r: &String)
        ensures
            r == self.spec_name(),
    {
        &self.name
    }

    pub fn get_nodes(&self) -> (r: &Vec<Node>)
        ensures
            r == self.spec_nodes(),
    {
        &self.nodes
    }

    pub fn get_epoch(&self) -> (r: u64)
        ensures
            r == self.spec_epoch(),
    {
        self.epoch
    }

    pub fn into_nodes(self) -> (r: Vec<Node>)
        ensures
            r == self.spec_nodes(),
    {
        self.nodes
    }
}

/// All nodes a single proxy hosts, with the proxy's epoch.
#[derive(Clone, Debug)]
pub struct Host {
    address: String,
    epoch: u64,
    nodes: Vec<Node>,
}

impl Host {
    pub fn new(address: String, epoch: u64, nodes: Vec<Node>) -> (r: Host)
        ensures
            r.spec_address() == address,
            r.spec_epoch() == epoch,
            r.spec_nodes() == nodes,
    {
        Host { address, epoch, nodes }
    }

    pub closed spec fn spec_address(self) -> String {
        self.address
    }

    pub closed spec fn spec_epoch(self) -> u64 {
        self.epoch
    }

    pub closed spec fn spec_nodes(self) -> Vec<Node> {
        self.nodes
    }

    pub fn get_address(&self) -> (r: &String)
        ensures
            r == self.spec_address(),
    {
        &self.address
    }

    pub fn get_nodes(&self) -> (r: &Vec<Node>)
        ensures
            r == self.spec_nodes(),
    {
        &self.nodes
    }

    pub fn get_epoch(&self) -> (r: u64)
        ensures
            r == self.spec_epoch(),
    {
        self.epoch
    }

    pub fn into_nodes(self) -> (r: Vec<Node>)
        ensures
            r == self.spec_nodes(),
    {
        self.nodes
    }
}

} // verus!
