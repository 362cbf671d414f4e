//! One live client channel: its identity, its liveness state, and the
//! decisions its heartbeat protocol takes.
//!
//! The transport loop around the library drives a `Connection` with the
//! frames it reads and with periodic ticks, and performs the action each
//! decision names: send a probe, answer a probe, or tear the channel down.
//! Time is carried as a plain tick count; the loop supplies a monotonic
//! reading.

use vstd::prelude::*;
use crate::identity::Identifier;

verus! {

/// How often the heartbeat timer fires, in time units.
pub const HEARTBEAT_INTERVAL: u64 = 5;

/// How long a connection may go without a liveness signal before it is
/// considered dead, in time units.
pub const CLIENT_TIMEOUT: u64 = 10;

/// What a heartbeat tick asks the transport loop to do.
#[derive(Debug, PartialEq, Eq, Structural)]
pub enum TickAction {
    /// Send a liveness probe to the peer.
    Ping,
    /// The peer has been silent past the timeout window: close the channel.
    Terminate,
}

/// An inbound frame, as far as the liveness protocol cares: everything
/// else the channel carries is one-way and is ignored here.
pub enum Frame {
    /// A liveness probe from the peer, with its payload.
    Ping(Vec<u8>),
    /// The peer's answer to a probe of ours.
    Pong(Vec<u8>),
    /// An explicit close.
    Close,
    /// Any other frame kind.
    Other,
}

/// What an inbound frame asks the transport loop to do.
pub enum FrameAction {
    /// Echo the probe's payload back to the peer.
    Reply(Vec<u8>),
    /// Nothing: the frame only updated liveness state, or was ignored.
    Ignore,
    /// The peer asked to close: tear the channel down.
    Terminate,
}

/// One accepted, still-open transport session.
pub struct Connection {
    /// The identity this session is bound to; fixed at construction.
    pub id: Identifier,
    /// When the last liveness signal was observed.
    pub last_heartbeat: u64,
    /// Whether the session's teardown has already run.
    pub terminated: bool,
}

/// Whether the peer has been silent for longer than the timeout window.
pub open spec fn spec_timed_out(c: Connection, now: u64) -> bool {
    now - c.last_heartbeat > CLIENT_TIMEOUT
}

/// The decision a heartbeat tick takes: terminate past the timeout
/// window, probe the peer otherwise.
pub open spec fn spec_tick(c: Connection, now: u64) -> TickAction {
    if spec_timed_out(c, now) {
        TickAction::Terminate
    } else {
        TickAction::Ping
    }
}

impl Connection {
    /// Open a session for an identity, alive as of `now`.
    pub fn new(id: Identifier, now: u64) -> (c: Connection)
        ensures
            c.id == id,
            c.last_heartbeat == now,
            !c.terminated,
    {
        Connection { id, last_heartbeat: now, terminated: false }
    }

    /// The heartbeat timer fired: decide between probing the peer and
    /// closing a channel whose peer has been silent past the timeout.
    pub fn on_tick(&self, now: u64) -> (action: TickAction)
        requires
            self.last_heartbeat <= now,
        ensures
            action == spec_tick(*self, now),
    {
        if now - self.last_heartbeat > CLIENT_TIMEOUT {
            TickAction::Terminate
        } else {
            TickAction::Ping
        }
    }

    /// An inbound frame arrived at `now`: liveness traffic refreshes the
    /// heartbeat state, a close asks for teardown, anything else is
    /// ignored — the channel is one-way apart from liveness traffic.
    pub fn on_frame(&mut self, frame: Frame, now: u64) -> (action: FrameAction)
        ensures
            final(self).id == old(self).id,
            final(self).terminated == old(self).terminated,
            match frame {
                Frame::Ping(payload) => final(self).last_heartbeat == now && action
                    == FrameAction::Reply(payload),
                Frame::Pong(_) => final(self).last_heartbeat == now && action
                    == FrameAction::Ignore,
                Frame::Close => final(self).last_heartbeat == old(self).last_heartbeat && action
                    == FrameAction::Terminate,
                Frame::Other => final(self).last_heartbeat == old(self).last_heartbeat && action
                    == FrameAction::Ignore,
            },
    {
        match frame {
            Frame::Ping(payload) => {
                self.last_heartbeat = now;
                FrameAction::Reply(payload)
            },
            Frame::Pong(_) => {
                self.last_heartbeat = now;
                FrameAction::Ignore
            },
            Frame::Close => FrameAction::Terminate,
            Frame::Other => FrameAction::Ignore,
        }
    }

    /// The registry answered this session's registration request: a
    /// rejected (or unconfirmed) registration means the session must
    /// close itself at once, with no deregistration owed.
    pub fn on_register_outcome(&mut self, accepted: bool)
        ensures
            final(self).id == old(self).id,
            final(self).last_heartbeat == old(self).last_heartbeat,
            final(self).terminated == (old(self).terminated || !accepted),
    {
        if !accepted {
            self.terminated = true;
        }
    }

    /// Tear the session down. Runs its effect exactly once however many
    /// times it is called and whatever caused it: the first call names
    /// the identity to deregister, every later call is a no-op.
    pub fn terminate(&mut self) -> (deregister: Option<Identifier>)
        ensures
            final(self).id == old(self).id,
            final(self).last_heartbeat == old(self).last_heartbeat,
            final(self).terminated,
            old(self).terminated ==> deregister == Option::<Identifier>::None,
            !old(self).terminated ==> deregister == Some(old(self).id),
    {
        if self.terminated {
            None
        } else {
            self.terminated = true;
            Some(self.id)
        }
    }
}

/// A connection that has received no liveness signal for longer than the
/// timeout window terminates: its tick decision is to close. Once its
/// deregistration has run, its identity is absent from the registry, so a
/// fresh registration for that identity is at once accepted and maps the
/// identity to the fresh capability.
pub proof fn lemma_timeout_frees_identity(
    c: Connection,
    now: u64,
    before: Map<Identifier, u64>,
    fresh_capability: u64,
)
    requires
        c.last_heartbeat <= now,
        spec_timed_out(c, now),
    ensures
        spec_tick(c, now) == TickAction::Terminate,
        !before.remove(c.id).contains_key(c.id),
        before.remove(c.id).insert(c.id, fresh_capability).contains_key(c.id),
        before.remove(c.id).insert(c.id, fresh_capability)[c.id] == fresh_capability,
{
}

} // verus!
