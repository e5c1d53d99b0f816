use judge_protocol::connection::{after_handshake, on_packet, Action, Phase};
use judge_protocol::error::ProtocolError;
use judge_protocol::handshake::{client_hello, HandshakeResult, SessionTable};
use judge_protocol::packet::Command;

#[test]
fn refused_connection_rejects_everything() {
    let mut table = SessionTable::new();
    let mut phase = Phase::AwaitingHandshake;
    assert_eq!(on_packet(phase, Command::Handshake), Action::RunHandshake);
    let (req, _) = client_hello(b"bad");
    let resp = table.accept(&req, b"good");
    phase = after_handshake(phase, resp.result, resp.node_id);
    assert_eq!(phase, Phase::Refused);
    assert_eq!(on_packet(phase, Command::ReqJudge), Action::Reject(ProtocolError::AuthFailure));
    assert_eq!(on_packet(phase, Command::Handshake), Action::Reject(ProtocolError::AuthFailure));
}

#[test]
fn established_connection_dispatches() {
    let mut table = SessionTable::new();
    let (req, _) = client_hello(b"good");
    let resp = table.accept(&req, b"good");
    let phase = after_handshake(Phase::AwaitingHandshake, resp.result, resp.node_id);
    let id = resp.node_id.unwrap();
    assert_eq!(phase, Phase::Established(id));
    assert_eq!(on_packet(phase, Command::GetJudgeStateUpdate), Action::Dispatch(id));
    assert_eq!(on_packet(phase, Command::Handshake), Action::Reject(ProtocolError::GeneralError));
    assert_eq!(after_handshake(phase, HandshakeResult::PasswordNotMatched, None), phase);
}

#[test]
fn no_packet_before_handshake() {
    let phase = Phase::AwaitingHandshake;
    assert_eq!(on_packet(phase, Command::ReqJudge), Action::Reject(ProtocolError::AuthFailure));
    assert_eq!(on_packet(phase, Command::Unknown), Action::Reject(ProtocolError::UnknownCommand));
    assert_eq!(after_handshake(phase, HandshakeResult::Unknown, None), Phase::AwaitingHandshake);
}
