//! Lease records and the append-only history of lease transitions.

use vstd::prelude::*;
use crate::addr::{ClientAddr, Ipv4};

verus! {

/// Where a lease stands in the handshake: reserved by an offer, or bound by
/// an acknowledged request.
#[derive(Clone, Copy, Debug, PartialEq, Eq, Structural)]
pub enum LeaseStatus {
    Offered,
    Bound,
}

/// A transition that the history records.
#[derive(Clone, Copy, Debug, PartialEq, Eq, Structural)]
pub enum LeaseEvent {
    /// A lease was created by an offer.
    Offered,
    /// A lease was bound by an acknowledged request.
    Bound,
    /// The client released its lease.
    Released,
    /// An administrator evicted the client.
    Evicted,
    /// The server dropped a lease because its holder or its address moved
    /// on (a repeated discovery, a request for another address, or another
    /// client binding the address).
    Withdrawn,
}

/// The lease that a client holds. An empty `hw` means that the client
/// reported no hardware address.
#[derive(Debug)]
pub struct Lease {
    pub client: ClientAddr,
    pub addr: Ipv4,
    pub hw: Vec<u8>,
    pub status: LeaseStatus,
    pub since: u64,
}

/// One recorded transition.
#[derive(Debug)]
pub struct HistoryEntry {
    pub client: ClientAddr,
    pub addr: Ipv4,
    pub hw: Vec<u8>,
    pub event: LeaseEvent,
    pub at: u64,
}

/// A lease as mathematical values.
pub struct LeaseView {
    pub client: ClientAddr,
    pub addr: Ipv4,
    pub hw: Seq<u8>,
    pub status: LeaseStatus,
    pub since: u64,
}

/// A history entry as mathematical values.
pub struct HistoryView {
    pub client: ClientAddr,
    pub addr: Ipv4,
    pub hw: Seq<u8>,
    pub event: LeaseEvent,
    pub at: u64,
}

impl View for Lease {
    type V = LeaseView;

    open spec fn view(&self) -> LeaseView {
        LeaseView {
            client: self.client,
            addr: self.addr,
            hw: self.hw@,
            status: self.status,
            since: self.since,
        }
    }
}

impl View for HistoryEntry {
    type V = HistoryView;

    open spec fn view(&self) -> HistoryView {
        HistoryView {
            client: self.client,
            addr: self.addr,
            hw: self.hw@,
            event: self.event,
            at: self.at,
        }
    }
}

/// A copy of a byte string.
pub fn copy_bytes(b: &Vec<u8>) -> (r: Vec<u8>)
    ensures
        r@ == b@,
{
    let mut r: Vec<u8> = Vec::with_capacity(b.len());
    let mut i: usize = 0;
    while i < b.len()
        invariant
            i <= b@.len(),
            r@ == b@.take(i as int),
        decreases b@.len() - i,
    {
        r.push(b[i]);
        i = i + 1;
        assert(r@ =~= b@.take(i as int));
    }
    assert(b@.take(b@.len() as int) =~= b@);
    r
}

} // verus!
