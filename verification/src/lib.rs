//! A connection registry and event router.
//!
//! The library tracks which client identities currently hold a live
//! connection, manages each connection's liveness through a heartbeat
//! protocol, and routes inbound events to the single live connection that
//! matches the event's target identity, dropping events with no match.

use vstd::prelude::*;

pub mod connection;
pub mod event;
pub mod identity;
pub mod ingest;
pub mod registry;

verus! {

} // verus!
