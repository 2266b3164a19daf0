//! Remote contacts: an identifier, an IPv4 endpoint, and liveness tracking.
use crate::hash::HASH_LENGTH;
use vstd::prelude::*;

verus! {

pub type NodeID = crate::hash::Hash;

/// An IPv4 endpoint: four address bytes and a port.
#[derive(Clone, Copy, PartialEq, Eq, Debug)]
pub struct NodeAddr {
    pub ip: [u8; 4],
    pub port: u16,
}

/// Spec model of an endpoint.
pub struct AddrModel {
    pub ip: Seq<u8>,
    pub port: u16,
}

impl View for NodeAddr {
    type V = AddrModel;

    open spec fn view(&self) -> AddrModel {
        AddrModel { ip: self.ip@, port: self.port }
    }
}

impl NodeAddr {
    pub fn new(ip: [u8; 4], port: u16) -> (r: NodeAddr)
        ensures
            r@ == (AddrModel { ip: ip@, port }),
    {
        NodeAddr { ip, port }
    }
}

/// Spec model of a contact.
pub struct NodeModel {
    pub id: Seq<u8>,
    pub addr: AddrModel,
    pub last_active: u64,
}

/// A remote node: identifier, endpoint, and the time it was last heard from,
/// in seconds of the unix epoch.
#[derive(Clone, Copy, Debug, PartialEq)]
pub struct Node {
    pub id: NodeID,
    pub addr: NodeAddr,
    pub last_active: u64,
}

impl View for Node {
    type V = NodeModel;

    open spec fn view(&self) -> NodeModel {
        NodeModel { id: self.id@, addr: self.addr@, last_active: self.last_active }
    }
}

/// A node is good if it was heard from within this many seconds.
pub const GOOD_NODE_DURATION_SECONDS: u64 = 60 * 15;

/// A contact is good at time `now` if it was heard from within the last
/// fifteen minutes (a `last_active` in the future does not count as good).
pub open spec fn is_good_spec(m: NodeModel, now: u64) -> bool {
    m.last_active <= now && now - m.last_active < GOOD_NODE_DURATION_SECONDS
}

impl Node {
    pub fn new(id: NodeID, addr: NodeAddr, last_active: u64) -> (r: Self)
        ensures
            r@ == (NodeModel { id: id@, addr: addr@, last_active }),
    {
        Self { id, addr, last_active }
    }

    /// A node with a random identifier and a random port on the wildcard
    /// address, last heard from now.
    pub fn random() -> (r: Node)
        ensures
            r@.id.len() == HASH_LENGTH,
            forall|i: int| 0 <= i < 4 ==> r@.addr.ip[i] == 0u8,
    {
        let id = NodeID::random();
        let port: u16 = rand::random();
        let addr = NodeAddr { ip: [0; 4], port };
        Self { id, addr, last_active: now_unix_seconds() }
    }

    /// Whether the node counts as good at the given time.
    pub fn is_good_at(&self, now: u64) -> (r: bool)
        ensures
            r == is_good_spec(self@, now),
    {
        self.last_active <= now && now - self.last_active < GOOD_NODE_DURATION_SECONDS
    }

    /// Whether the node counts as good right now. The clock is read once;
    /// `is_good_at` states what the answer is for any given reading.
    pub fn is_good(&self) -> bool {
        let now = now_unix_seconds();
        self.is_good_at(now)
    }
}

/// Relies on std::time::SystemTime::now: the current time, reported as whole
/// seconds since the unix epoch, or 0 if the clock reads before the epoch.
#[verifier::external_body]
pub fn now_unix_seconds() -> u64 {
    match std::time::SystemTime::now().duration_since(std::time::SystemTime::UNIX_EPOCH) {
        Ok(d) => d.as_secs(),
        Err(_) => 0,
    }
}

} // verus!
