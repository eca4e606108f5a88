//! Session decision logic: pairs one network connection with its role in
//! the pipeline. The first message of a connection must be a Hello whose
//! password proof matches the configured secret; the sink then accepts the
//! connection, and every later message maps to one pipeline action. Any
//! protocol violation — a wrong proof, a second Hello, data before Hello —
//! is fatal to that connection only: it is terminated and never retried on
//! the same stream.

use vstd::prelude::*;

use crate::codec::Message;
use crate::event::CanonicalEvent;
use crate::event::DeviceDescriptor;

verus! {

/// Where a connection stands in its lifecycle.
#[derive(Clone, Copy, Debug, PartialEq, Eq, Structural)]
pub enum SessionState {
    /// Nothing received yet; only a valid Hello is acceptable.
    AwaitingHello,
    /// Authenticated; pipeline messages flow.
    Established,
    /// Terminated; nothing further is acted on.
    Closed,
}

/// What the surrounding connection task must do with one message.
#[derive(Clone, Debug, PartialEq, Eq)]
pub enum SessionAction {
    /// Register the connection as an authenticated source.
    Accept,
    /// Hand the event to the switch coordinator.
    Deliver(CanonicalEvent),
    /// Create a virtual device for this descriptor.
    AddDevice(DeviceDescriptor),
    /// Destroy the virtual device with this id.
    RemoveDevice(u64),
    /// Nothing to do (liveness marker, or the session is closed).
    Ignore,
    /// Close the connection and release its resources.
    Terminate,
}

/// Reacts to one decoded message on a connection in state `state`, with
/// `expected_proof` the configured shared secret. Returns the successor
/// state and the action to perform.
pub fn session_step(state: SessionState, message: Message, expected_proof: &Vec<u8>) -> (r: (
    SessionState,
    SessionAction,
))
    ensures
        state == SessionState::Closed ==> r == (SessionState::Closed, SessionAction::Ignore),
        state == SessionState::AwaitingHello ==> match message@ {
            crate::codec::MessageModel::Hello { password_proof } => if password_proof
                == expected_proof@ {
                r == (SessionState::Established, SessionAction::Accept)
            } else {
                r == (SessionState::Closed, SessionAction::Terminate)
            },
            _ => r == (SessionState::Closed, SessionAction::Terminate),
        },
        state == SessionState::Established ==> match message@ {
            crate::codec::MessageModel::Hello { password_proof } => r == (
                SessionState::Closed,
                SessionAction::Terminate,
            ),
            crate::codec::MessageModel::Event { event } => r == (
                SessionState::Established,
                SessionAction::Deliver(event),
            ),
            crate::codec::MessageModel::DeviceAdded { descriptor } => r.0
                == SessionState::Established && (r.1 matches SessionAction::AddDevice(d) && d@
                == descriptor),
            crate::codec::MessageModel::DeviceRemoved { device_id } => r == (
                SessionState::Established,
                SessionAction::RemoveDevice(device_id),
            ),
            crate::codec::MessageModel::Heartbeat => r == (
                SessionState::Established,
                SessionAction::Ignore,
            ),
        },
{
    match state {
        SessionState::Closed => (SessionState::Closed, SessionAction::Ignore),
        SessionState::AwaitingHello => {
            match message {
                Message::Hello { password_proof } => {
                    if bytes_eq(&password_proof, expected_proof) {
                        (SessionState::Established, SessionAction::Accept)
                    } else {
                        (SessionState::Closed, SessionAction::Terminate)
                    }
                },
                _ => (SessionState::Closed, SessionAction::Terminate),
            }
        },
        SessionState::Established => {
            match message {
                Message::Hello { password_proof: _ } => (
                    SessionState::Closed,
                    SessionAction::Terminate,
                ),
                Message::Event { event } => (
                    SessionState::Established,
                    SessionAction::Deliver(event),
                ),
                Message::DeviceAdded { descriptor } => (
                    SessionState::Established,
                    SessionAction::AddDevice(descriptor),
                ),
                Message::DeviceRemoved { device_id } => (
                    SessionState::Established,
                    SessionAction::RemoveDevice(device_id),
                ),
                Message::Heartbeat => (SessionState::Established, SessionAction::Ignore),
            }
        },
    }
}

/// Whether two byte strings are equal.
pub fn bytes_eq(a: &Vec<u8>, b: &Vec<u8>) -> (r: bool)
    ensures
        r == (a@ == b@),
{
    if a.len() != b.len() {
        return false;
    }
    let mut i: usize = 0;
    while i < a.len()
        invariant
            a@.len() == b@.len(),
            0 <= i <= a@.len(),
            forall|j: int| 0 <= j < i ==> a@[j] == b@[j],
        decreases a@.len() - i,
    {
        if a[i] != b[i] {
            return false;
        }
        i = i + 1;
    }
    proof {
        assert(a@ =~= b@);
    }
    true
}

} // verus!
