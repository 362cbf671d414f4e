//! The registry/router: the single serialized owner of the mapping from
//! identity to send capability.
//!
//! A send capability is an opaque handle, carried here as a plain number;
//! the caller that runs the transport resolves a handle back to the channel
//! it stands for and performs the one push that a delivered outcome names.

use vstd::prelude::*;
use std::collections::HashMap;
use crate::identity::Identifier;
use crate::identity::spec_key;
use crate::identity::lemma_key_injective;
use crate::event::Event;
use crate::event::spec_wire;

verus! {

broadcast use vstd::std_specs::hash::group_hash_axioms;

/// What a forward request came to: either one push of the encoded event on
/// the named capability, or a silent drop.
pub enum RouteOutcome {
    /// The target identity was registered: push `wire` on `capability`,
    /// exactly once.
    Delivered { capability: u64, wire: Vec<u8> },
    /// No live connection matched the target identity; the event is
    /// discarded with no side effect.
    Dropped,
}

/// The identity-to-capability mapping. All reads and writes of it go
/// through the three operations below, one at a time.
pub struct Registry {
    handles: HashMap<u64, u64>,
}

impl View for Registry {
    type V = Map<Identifier, u64>;

    /// The registry as a mathematical map from identity to capability.
    closed spec fn view(&self) -> Map<Identifier, u64> {
        Map::new(
            |id: Identifier| self.handles@.contains_key(spec_key(id) as u64),
            |id: Identifier| self.handles@[spec_key(id) as u64],
        )
    }
}

impl Registry {
    /// An empty registry: no identity has a live connection.
    pub fn new() -> (r: Registry)
        ensures
            r@ == Map::<Identifier, u64>::empty(),
    {
        let r = Registry { handles: HashMap::new() };
        proof {
            assert(r@ =~= Map::<Identifier, u64>::empty());
        }
        r
    }

    /// Register a connection's capability under its identity.
    ///
    /// The first registration for an identity wins: if the identity is
    /// free the entry is inserted and the call is accepted; if an entry
    /// already exists the call is rejected and the existing entry is left
    /// intact.
    pub fn register(&mut self, id: Identifier, capability: u64) -> (accepted: bool)
        ensures
            accepted == !old(self)@.contains_key(id),
            accepted ==> final(self)@ == old(self)@.insert(id, capability),
            !accepted ==> final(self)@ == old(self)@,
    {
        let k = id.key();
        if self.handles.contains_key(&k) {
            false
        } else {
            self.handles.insert(k, capability);
            proof {
                assert forall|other: Identifier|
                    #[trigger] self@.contains_key(other) == old(self)@.insert(
                        id,
                        capability,
                    ).contains_key(other) && (self@.contains_key(other) ==> self@[other] == old(
                        self,
                    )@.insert(id, capability)[other]) by {
                    if spec_key(other) == spec_key(id) {
                        lemma_key_injective(other, id);
                    }
                }
                assert(self@ =~= old(self)@.insert(id, capability));
            }
            true
        }
    }

    /// The other registration-collision policy: a new registration for an
    /// already-registered identity replaces the stale entry instead of
    /// being rejected. The capability it displaced, if any, is returned so
    /// that the caller can close the stale channel.
    pub fn register_replacing(&mut self, id: Identifier, capability: u64) -> (displaced: Option<
        u64,
    >)
        ensures
            final(self)@ == old(self)@.insert(id, capability),
            match displaced {
                Some(stale) => old(self)@.contains_key(id) && stale == old(self)@[id],
                None => !old(self)@.contains_key(id),
            },
    {
        let k = id.key();
        let displaced = self.handles.insert(k, capability);
        proof {
            assert forall|other: Identifier|
                #[trigger] self@.contains_key(other) == old(self)@.insert(
                    id,
                    capability,
                ).contains_key(other) && (self@.contains_key(other) ==> self@[other] == old(
                    self,
                )@.insert(id, capability)[other]) by {
                if spec_key(other) == spec_key(id) {
                    lemma_key_injective(other, id);
                }
            }
            assert(self@ =~= old(self)@.insert(id, capability));
        }
        displaced
    }

    /// Remove the entry for an identity, if there is one.
    ///
    /// Removing an absent identity changes nothing, which covers both a
    /// double deregister and a late deregister after a rejected
    /// registration; either way the identity reports absent afterwards.
    pub fn deregister(&mut self, id: Identifier)
        ensures
            final(self)@ == old(self)@.remove(id),
            !final(self)@.contains_key(id),
            !old(self)@.contains_key(id) ==> final(self)@ == old(self)@,
    {
        let k = id.key();
        self.handles.remove(&k);
        proof {
            assert forall|other: Identifier|
                #[trigger] self@.contains_key(other) == old(self)@.remove(id).contains_key(other)
                    && (self@.contains_key(other) ==> self@[other] == old(self)@.remove(
                    id,
                )[other]) by {
                if spec_key(other) == spec_key(id) {
                    lemma_key_injective(other, id);
                }
            }
            assert(self@ =~= old(self)@.remove(id));
            if !old(self)@.contains_key(id) {
                assert(self@ =~= old(self)@);
            }
        }
    }

    /// Best-effort delivery: look the target identity up; if a connection
    /// is registered, serialize the event and name the one push to make;
    /// if none is, report the event dropped and touch nothing.
    pub fn forward(&self, id: Identifier, event: &Event) -> (outcome: RouteOutcome)
        ensures
            match outcome {
                RouteOutcome::Delivered { capability, wire } => self@.contains_key(id)
                    && capability == self@[id] && wire@ == spec_wire(event@),
                RouteOutcome::Dropped => !self@.contains_key(id),
            },
    {
        let k = id.key();
        match self.handles.get(&k) {
            Some(capability) => {
                let wire = event.encode();
                RouteOutcome::Delivered { capability: *capability, wire }
            },
            None => RouteOutcome::Dropped,
        }
    }

    /// Look an identity up: the registered capability if the identity has
    /// a live connection, absent otherwise.
    pub fn capability_of(&self, id: Identifier) -> (r: Option<u64>)
        ensures
            match r {
                Some(capability) => self@.contains_key(id) && capability == self@[id],
                None => !self@.contains_key(id),
            },
    {
        let k = id.key();
        match self.handles.get(&k) {
            Some(capability) => Some(*capability),
            None => None,
        }
    }

    /// How many identities currently hold a live connection.
    pub fn len(&self) -> (n: usize)
        ensures
            n == self@.dom().len(),
    {
        proof {
            lemma_view_len(self);
        }
        self.handles.len()
    }
}

/// One request of the router's inbox. Connections and the publish gateway
/// talk to the registry only through these three messages, delivered one
/// at a time in a single total order.
pub enum RouterRequest {
    /// A connection asks to be registered under its identity.
    Connect { id: Identifier, capability: u64 },
    /// A terminating connection asks to be removed.
    Disconnect { id: Identifier },
    /// The publish gateway asks for an event to be routed.
    Forward { id: Identifier, event: Event },
}

/// What one request does to the registry's map: the whole effect of a
/// step, so a run of the router is the fold of this function over its
/// inbox, in arrival order.
pub open spec fn spec_step(m: Map<Identifier, u64>, request: RouterRequest) -> Map<
    Identifier,
    u64,
> {
    match request {
        RouterRequest::Connect { id, capability } => if m.contains_key(id) {
            m
        } else {
            m.insert(id, capability)
        },
        RouterRequest::Disconnect { id } => m.remove(id),
        RouterRequest::Forward { .. } => m,
    }
}

/// The router's answer to one request.
pub enum RouterReply {
    /// Whether the registration was accepted.
    Connected { accepted: bool },
    /// A disconnect always succeeds.
    Disconnected,
    /// What the forward came to.
    Forwarded { outcome: RouteOutcome },
}

impl Registry {
    /// Process one inbox message: the three operations, serialized through
    /// this single entry point, each an indivisible step with respect to
    /// every other.
    pub fn handle(&mut self, request: RouterRequest) -> (reply: RouterReply)
        ensures
            final(self)@ == spec_step(old(self)@, request),
            match request {
                RouterRequest::Connect { id, capability } => {
                    &&& reply == (RouterReply::Connected {
                        accepted: !old(self)@.contains_key(id),
                    })
                    &&& !old(self)@.contains_key(id) ==> final(self)@ == old(self)@.insert(
                        id,
                        capability,
                    )
                    &&& old(self)@.contains_key(id) ==> final(self)@ == old(self)@
                },
                RouterRequest::Disconnect { id } => {
                    &&& reply == RouterReply::Disconnected
                    &&& final(self)@ == old(self)@.remove(id)
                },
                RouterRequest::Forward { id, event } => {
                    &&& final(self)@ == old(self)@
                    &&& match reply {
                        RouterReply::Forwarded { outcome } => match outcome {
                            RouteOutcome::Delivered { capability, wire } => old(
                                self,
                            )@.contains_key(id) && capability == old(self)@[id] && wire@
                                == spec_wire(event@),
                            RouteOutcome::Dropped => !old(self)@.contains_key(id),
                        },
                        _ => false,
                    }
                },
            },
    {
        match request {
            RouterRequest::Connect { id, capability } => {
                let accepted = self.register(id, capability);
                RouterReply::Connected { accepted }
            },
            RouterRequest::Disconnect { id } => {
                self.deregister(id);
                RouterReply::Disconnected
            },
            RouterRequest::Forward { id, event } => {
                let outcome = self.forward(id, &event);
                RouterReply::Forwarded { outcome }
            },
        }
    }
}

/// The packed keys of the handle table are in one-to-one correspondence
/// with the identities of the registry's map view, so the two have the
/// same number of entries.
proof fn lemma_view_len(r: &Registry)
    ensures
        r@.dom().len() == r.handles@.dom().len(),
{
    let unpack = |k: u64|
        Identifier {
            organization_id: (k / 0x1_0000_0000) as u32,
            user_id: (k % 0x1_0000_0000) as u32,
        };
    assert forall|id: Identifier| #[trigger] r@.dom().contains(id) implies r.handles@.dom().contains(
        spec_key(id) as u64,
    ) && unpack(spec_key(id) as u64) == id by {
        lemma_unpack_key(id);
    }
    assert forall|k: u64| #[trigger] r.handles@.dom().contains(k) implies r@.dom().contains(
        unpack(k),
    ) && spec_key(unpack(k)) as u64 == k by {
        lemma_pack_unpack(k);
    }
    assert(r@.dom() =~= r.handles@.dom().map(unpack));
    assert(vstd::relations::injective_on(unpack, r.handles@.dom())) by {
        assert forall|k1: u64, k2: u64|
            r.handles@.dom().contains(k1) && r.handles@.dom().contains(k2) && #[trigger] unpack(k1)
                == #[trigger] unpack(k2) implies k1 == k2 by {
            lemma_pack_unpack(k1);
            lemma_pack_unpack(k2);
        }
    }
    vstd::set_lib::lemma_map_size(r.handles@.dom(), r@.dom(), unpack);
}

/// Unpacking an identity's packed key gives the identity back.
proof fn lemma_unpack_key(id: Identifier)
    ensures
        (spec_key(id) as u64) / 0x1_0000_0000 == id.organization_id,
        (spec_key(id) as u64) % 0x1_0000_0000 == id.user_id,
{
    assert((id.organization_id as int * 0x1_0000_0000 + id.user_id as int) / 0x1_0000_0000
        == id.organization_id as int && (id.organization_id as int * 0x1_0000_0000 + id.user_id
        as int) % 0x1_0000_0000 == id.user_id as int) by (nonlinear_arith)
        requires
            id.organization_id <= 0xffff_ffff,
            id.user_id <= 0xffff_ffff,
    ;
}

/// Packing the two halves of a key gives the key back.
proof fn lemma_pack_unpack(k: u64)
    ensures
        (k as int / 0x1_0000_0000) * 0x1_0000_0000 + (k as int % 0x1_0000_0000) == k as int,
        k as int / 0x1_0000_0000 <= 0xffff_ffff,
{
    assert((k as int / 0x1_0000_0000) * 0x1_0000_0000 + (k as int % 0x1_0000_0000) == k as int && k
        as int / 0x1_0000_0000 <= 0xffff_ffff) by (nonlinear_arith)
        requires
            0 <= k as int <= 0xffff_ffff_ffff_ffff,
    ;
}

/// The registry never holds more than one entry for an identity: its
/// contents form a map keyed by identity, and distinct identities always
/// occupy distinct slots of the underlying table, so the one slot
/// `spec_key(id)` is the only place an identity's capability can live.
pub proof fn lemma_at_most_one_entry(id: Identifier, other: Identifier)
    requires
        spec_key(other) == spec_key(id),
    ensures
        other == id,
{
    lemma_key_injective(other, id);
}

/// A registration for a free identity is accepted; an immediately
/// following registration for the same identity, with no deregistration
/// between the two, is rejected and the map still carries the first
/// capability.
pub proof fn lemma_register_collision(
    before: Map<Identifier, u64>,
    id: Identifier,
    cap1: u64,
    cap2: u64,
)
    requires
        !before.contains_key(id),
    ensures
        ({
            let after_first = before.insert(id, cap1);
            &&& after_first.contains_key(id)
            &&& after_first[id] == cap1
        }),
{
}

} // verus!
