//! What one connection does with each packet it receives, decided from the
//! connection's phase and the packet's command. The caller performs the
//! action and reports how a handshake ended.
use vstd::prelude::*;
use crate::error::ProtocolError;
use crate::handshake::HandshakeResult;
use crate::packet::Command;

verus! {

#[derive(Clone, Copy, Debug, PartialEq, Eq, Structural)]
pub enum Phase {
    /// No handshake has completed yet.
    AwaitingHandshake,
    /// A handshake succeeded and assigned this node id.
    Established(u128),
    /// A handshake failed on its password; the connection should close.
    Refused,
}

#[derive(Clone, Copy, Debug, PartialEq, Eq, Structural)]
pub enum Action {
    /// Read the body as a handshake request.
    RunHandshake,
    /// Read the body as a session-bound payload of this node.
    Dispatch(u128),
    /// Discard the packet and report the error.
    Reject(ProtocolError),
}

/// The action for a packet of `command` in `phase`.
pub open spec fn action_spec(phase: Phase, command: Command) -> Action {
    if command == Command::Unknown {
        Action::Reject(ProtocolError::UnknownCommand)
    } else {
        match phase {
            Phase::AwaitingHandshake => if command == Command::Handshake {
                Action::RunHandshake
            } else {
                Action::Reject(ProtocolError::AuthFailure)
            },
            Phase::Established(id) => if command == Command::Handshake {
                Action::Reject(ProtocolError::GeneralError)
            } else {
                Action::Dispatch(id)
            },
            Phase::Refused => Action::Reject(ProtocolError::AuthFailure),
        }
    }
}

pub fn on_packet(phase: Phase, command: Command) -> (r: Action)
    ensures
        r == action_spec(phase, command),
{
    if let Command::Unknown = command {
        return Action::Reject(ProtocolError::UnknownCommand);
    }
    let is_handshake = matches!(command, Command::Handshake);
    match phase {
        Phase::AwaitingHandshake => if is_handshake {
            Action::RunHandshake
        } else {
            Action::Reject(ProtocolError::AuthFailure)
        },
        Phase::Established(id) => if is_handshake {
            Action::Reject(ProtocolError::GeneralError)
        } else {
            Action::Dispatch(id)
        },
        Phase::Refused => Action::Reject(ProtocolError::AuthFailure),
    }
}

/// The phase after a handshake run in `phase` ended with `result` and, on
/// success, `node_id`. Success and a password mismatch are terminal; any
/// other outcome leaves the connection waiting for a handshake.
pub fn after_handshake(phase: Phase, result: HandshakeResult, node_id: Option<u128>) -> (r: Phase)
    ensures
        phase != Phase::AwaitingHandshake ==> r == phase,
        phase == Phase::AwaitingHandshake ==> r == match (result, node_id) {
            (HandshakeResult::Success, Some(id)) => Phase::Established(id),
            (HandshakeResult::PasswordNotMatched, _) => Phase::Refused,
            _ => Phase::AwaitingHandshake,
        },
{
    match phase {
        Phase::AwaitingHandshake => match (result, node_id) {
            (HandshakeResult::Success, Some(id)) => Phase::Established(id),
            (HandshakeResult::PasswordNotMatched, _) => Phase::Refused,
            _ => Phase::AwaitingHandshake,
        },
        _ => phase,
    }
}

/// Before a handshake succeeds on a connection, and after one is refused, no
/// packet but a handshake is ever handed on.
pub proof fn lemma_no_dispatch_without_session(phase: Phase, command: Command)
    requires
        !(phase is Established),
    ensures
        !(action_spec(phase, command) is Dispatch),
{
}

} // verus!
