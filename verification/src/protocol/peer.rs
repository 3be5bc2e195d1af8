//! Peer lifecycle state machine.
//!
//! States move `Connecting -> Handshaking -> Active -> Disconnected`, and
//! `Handshaking -> Failed`; no state moves backwards. Only an `Active` peer
//! produces `Message` events.

use vstd::prelude::*;
use crate::protocol::messages::{ProtocolMessage, MessageView};
use crate::transport::handshake::{PeerSpec, PeerSpecView};
use crate::types::{Direction, PeerId};

verus! {

/// Peer connection states.
#[derive(Debug, Clone, Copy, PartialEq, Eq, Structural)]
pub enum PeerState {
    Connecting,
    Handshaking,
    Active,
    Disconnected,
    Failed,
}

/// How far along its lifecycle a state is.
pub open spec fn state_rank(s: PeerState) -> int {
    match s {
        PeerState::Connecting => 0,
        PeerState::Handshaking => 1,
        PeerState::Active => 2,
        PeerState::Disconnected => 3,
        PeerState::Failed => 3,
    }
}

/// The transitions of the lifecycle.
pub open spec fn valid_transition(from: PeerState, to: PeerState) -> bool {
    ||| from == PeerState::Connecting && to == PeerState::Handshaking
    ||| from == PeerState::Handshaking && to == PeerState::Active
    ||| from == PeerState::Handshaking && to == PeerState::Failed
    ||| from == PeerState::Active && to == PeerState::Disconnected
}

/// Every transition moves forward: no state is ever entered again after it is
/// left, and Disconnected and Failed are final.
pub proof fn lemma_transitions_one_way(from: PeerState, to: PeerState)
    requires
        valid_transition(from, to),
    ensures
        state_rank(from) < state_rank(to),
        from != PeerState::Disconnected && from != PeerState::Failed,
{
}

/// Events produced by the protocol layer.
#[derive(Debug, Clone)]
pub enum ProtocolEvent {
    PeerConnected { peer_id: PeerId, spec: PeerSpec, direction: Direction },
    PeerDisconnected { peer_id: PeerId, reason: String },
    Message { peer_id: PeerId, message: ProtocolMessage },
}

/// The content of a `ProtocolEvent`.
pub enum EventView {
    PeerConnected { peer_id: PeerId, spec: PeerSpecView, direction: Direction },
    PeerDisconnected { peer_id: PeerId, reason: Seq<char> },
    Message { peer_id: PeerId, message: MessageView },
}

impl View for ProtocolEvent {
    type V = EventView;

    open spec fn view(&self) -> EventView {
        match self {
            ProtocolEvent::PeerConnected { peer_id, spec, direction } => EventView::PeerConnected {
                peer_id: *peer_id,
                spec: spec@,
                direction: *direction,
            },
            ProtocolEvent::PeerDisconnected { peer_id, reason } => EventView::PeerDisconnected {
                peer_id: *peer_id,
                reason: reason@,
            },
            ProtocolEvent::Message { peer_id, message } => EventView::Message {
                peer_id: *peer_id,
                message: message@,
            },
        }
    }
}

/// State machine for a single peer's lifecycle.
pub struct PeerStateMachine {
    peer_id: PeerId,
    direction: Direction,
    state: PeerState,
    spec: Option<PeerSpec>,
}

/// The content of a `PeerStateMachine`.
pub struct PeerMachineView {
    pub peer_id: PeerId,
    pub direction: Direction,
    pub state: PeerState,
    pub spec: Option<PeerSpecView>,
}

impl View for PeerStateMachine {
    type V = PeerMachineView;

    closed spec fn view(&self) -> PeerMachineView {
        PeerMachineView {
            peer_id: self.peer_id,
            direction: self.direction,
            state: self.state,
            spec: match self.spec {
                Some(s) => Some(s@),
                None => None,
            },
        }
    }
}

impl PeerStateMachine {
    pub fn new(peer_id: PeerId, direction: Direction) -> (m: Self)
        ensures
            m@ == (PeerMachineView { peer_id, direction, state: PeerState::Connecting, spec: None }),
    {
        Self { peer_id, direction, state: PeerState::Connecting, spec: None }
    }

    pub fn state(&self) -> (s: PeerState)
        ensures
            s == self@.state,
    {
        self.state
    }

    pub fn peer_id(&self) -> (p: PeerId)
        ensures
            p == self@.peer_id,
    {
        self.peer_id
    }

    pub fn direction(&self) -> (d: Direction)
        ensures
            d == self@.direction,
    {
        self.direction
    }

    pub fn spec(&self) -> (s: Option<&PeerSpec>)
        ensures
            match self@.spec {
                Some(v) => s matches Some(p) && p@ == v,
                None => s is None,
            },
    {
        match &self.spec {
            Some(s) => Some(s),
            None => None,
        }
    }

    /// Transition to Handshaking.
    pub fn set_handshaking(&mut self)
        requires
            old(self)@.state == PeerState::Connecting,
        ensures
            final(self)@ == (PeerMachineView { state: PeerState::Handshaking, ..old(self)@ }),
            valid_transition(old(self)@.state, final(self)@.state),
    {
        self.state = PeerState::Handshaking;
    }

    /// Transition to Active. Returns the PeerConnected event.
    pub fn set_active(&mut self, spec: PeerSpec) -> (event: ProtocolEvent)
        requires
            old(self)@.state == PeerState::Handshaking,
        ensures
            final(self)@ == (PeerMachineView {
                state: PeerState::Active,
                spec: Some(spec@),
                ..old(self)@
            }),
            valid_transition(old(self)@.state, final(self)@.state),
            event@ == (EventView::PeerConnected {
                peer_id: old(self)@.peer_id,
                spec: spec@,
                direction: old(self)@.direction,
            }),
    {
        self.spec = Some(spec.duplicate());
        self.state = PeerState::Active;
        ProtocolEvent::PeerConnected { peer_id: self.peer_id, spec, direction: self.direction }
    }

    /// Transition to Disconnected. Returns the PeerDisconnected event.
    pub fn set_disconnected(&mut self, reason: String) -> (event: ProtocolEvent)
        requires
            old(self)@.state == PeerState::Active,
        ensures
            final(self)@ == (PeerMachineView { state: PeerState::Disconnected, ..old(self)@ }),
            valid_transition(old(self)@.state, final(self)@.state),
            event@ == (EventView::PeerDisconnected { peer_id: old(self)@.peer_id, reason: reason@ }),
    {
        self.state = PeerState::Disconnected;
        ProtocolEvent::PeerDisconnected { peer_id: self.peer_id, reason }
    }

    /// Transition to Failed (from Handshaking).
    pub fn set_failed(&mut self, _reason: String)
        requires
            old(self)@.state == PeerState::Handshaking,
        ensures
            final(self)@ == (PeerMachineView { state: PeerState::Failed, ..old(self)@ }),
            valid_transition(old(self)@.state, final(self)@.state),
    {
        self.state = PeerState::Failed;
    }

    /// Wraps a parsed message into an event from this peer.
    pub fn message_event(&self, message: ProtocolMessage) -> (event: ProtocolEvent)
        requires
            self@.state == PeerState::Active,
        ensures
            event@ == (EventView::Message { peer_id: self@.peer_id, message: message@ }),
    {
        ProtocolEvent::Message { peer_id: self.peer_id, message }
    }
}

} // verus!
