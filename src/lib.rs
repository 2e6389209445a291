//! Address-lease negotiation engine: a bounded address pool, a lease table
//! and the Discover/Offer/Request/Acknowledge state machine that arbitrates
//! between clients, with its line-oriented wire format.

pub mod addr;
pub mod laws;
pub mod lease;
pub mod pool;
pub mod server;
pub mod vendor;
pub mod wire;

pub use addr::{parse_ipv4, ClientAddr, Ipv4};
pub use lease::{HistoryEntry, Lease, LeaseEvent, LeaseStatus};
pub use pool::IpPool;
pub use server::DHCPState;
pub use vendor::{lookup_oui, vendor_from_upper};
pub use wire::{parse_message, parse_reply, DeclineReason, Message, MessageError, Reply};
