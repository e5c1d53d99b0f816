use judge_protocol::error::ProtocolError;
use judge_protocol::handshake::{
    client_hello, client_session_key, respond, BodyAfterHandshake, HandshakeRequest,
    HandshakeResponse, HandshakeResult, Session, SessionTable,
};
use judge_protocol::security::EncMessage;

const PASSWORD: &[u8] = b"correct horse";

#[test]
fn correct_password_gives_session() {
    let mut table = SessionTable::new();
    let (req, secret) = client_hello(PASSWORD);
    let resp = table.accept(&req, PASSWORD);
    assert_eq!(resp.result, HandshakeResult::Success);
    let node_id = resp.node_id.expect("node id");
    assert!(resp.server_pubkey.is_some());
    assert_eq!(table.sessions.len(), 1);
    let (id, key) = client_session_key(&secret, &resp).unwrap();
    assert_eq!(id, node_id);
    let session = &table.sessions[0];
    assert_eq!(session.node_id, node_id);
    assert_eq!(session.key, key);
    assert_eq!(session.client_pubkey, req.client_pubkey);

    let body = BodyAfterHandshake {
        node_id: id,
        client_pubkey: req.client_pubkey.clone(),
        req: EncMessage::generate(&key, b"judge me"),
    };
    let s = table.authenticate(&body).unwrap();
    assert_eq!(body.req.decrypt(&s.key).unwrap(), b"judge me".to_vec());
}

#[test]
fn wrong_password_gives_no_session() {
    let mut table = SessionTable::new();
    let (req, secret) = client_hello(b"wrong");
    let resp = table.accept(&req, PASSWORD);
    assert_eq!(resp.result, HandshakeResult::PasswordNotMatched);
    assert_eq!(resp.node_id, None);
    assert!(resp.server_pubkey.is_none());
    assert!(table.sessions.is_empty());
    assert_eq!(client_session_key(&secret, &resp).unwrap_err(), ProtocolError::PasswordMismatch);
    let body = BodyAfterHandshake { node_id: 1, client_pubkey: req.client_pubkey.clone(), req: () };
    assert_eq!(table.authenticate(&body).unwrap_err(), ProtocolError::AuthFailure);
}

#[test]
fn keys_agree_on_both_sides() {
    for _ in 0..5 {
        let (req, client_secret) = client_hello(PASSWORD);
        let (server_req, server_secret) = client_hello(b"");
        let (resp, session) = respond(&req, PASSWORD, &server_secret, 77);
        let session = session.unwrap();
        assert_eq!(resp.server_pubkey.as_ref(), Some(&server_req.client_pubkey));
        assert_eq!(resp.node_id, Some(77));
        let (id, key) = client_session_key(&client_secret, &resp).unwrap();
        assert_eq!(id, 77);
        assert_eq!(key, session.key);
    }
}

#[test]
fn malformed_client_key_gives_unknown() {
    let req = HandshakeRequest { client_pubkey: vec![1, 2, 3], pass: PASSWORD.to_vec() };
    let (_, server_secret) = client_hello(b"");
    let (resp, session) = respond(&req, PASSWORD, &server_secret, 5);
    assert_eq!(resp.result, HandshakeResult::Unknown);
    assert!(resp.node_id.is_none() && resp.server_pubkey.is_none());
    assert!(session.is_none());
    assert_eq!(
        client_session_key(&server_secret, &resp).unwrap_err(),
        ProtocolError::GeneralError
    );
}

#[test]
fn session_binding_rejects_strangers() {
    let mut table = SessionTable::new();
    let (req, _) = client_hello(PASSWORD);
    let resp = table.accept(&req, PASSWORD);
    let id = resp.node_id.unwrap();
    let unknown_id = BodyAfterHandshake { node_id: id.wrapping_add(1), client_pubkey: req.client_pubkey.clone(), req: 0u8 };
    assert_eq!(table.authenticate(&unknown_id).unwrap_err(), ProtocolError::AuthFailure);
    let (other, _) = client_hello(PASSWORD);
    let wrong_key = BodyAfterHandshake { node_id: id, client_pubkey: other.client_pubkey.clone(), req: 0u8 };
    assert_eq!(table.authenticate(&wrong_key).unwrap_err(), ProtocolError::AuthFailure);
    let good = BodyAfterHandshake { node_id: id, client_pubkey: req.client_pubkey.clone(), req: 0u8 };
    assert!(table.authenticate(&good).is_ok());
}

#[test]
fn insert_refuses_taken_node_id() {
    let mut table = SessionTable::new();
    let s = Session { node_id: 9, key: [0; 32], client_pubkey: vec![1] };
    assert!(table.insert(s.clone()));
    assert!(!table.insert(Session { node_id: 9, key: [1; 32], client_pubkey: vec![2] }));
    assert_eq!(table.sessions.len(), 1);
    assert_eq!(table.find(9), Some(0));
    assert_eq!(table.find(10), None);
}

#[test]
fn failure_response_has_no_fields() {
    let r = HandshakeResponse::failure(HandshakeResult::Unknown);
    assert_eq!(r.result, HandshakeResult::Unknown);
    assert!(r.node_id.is_none() && r.server_pubkey.is_none());
}

#[test]
fn body_bytes_round_trip() {
    let s = Session { node_id: 0x0102030405060708090A0B0C0D0E0F10, key: [0; 32], client_pubkey: vec![0xAA, 0xBB] };
    let body = BodyAfterHandshake::wrap(&s, vec![1u8, 2, 3]);
    let b = body.bytes();
    assert_eq!(
        b,
        vec![1, 2, 3, 4, 5, 6, 7, 8, 9, 10, 11, 12, 13, 14, 15, 16, 0, 0, 0, 2, 0xAA, 0xBB, 1, 2, 3]
    );
    let back = BodyAfterHandshake::from_bytes(&b).unwrap();
    assert_eq!(back.node_id, s.node_id);
    assert_eq!(back.client_pubkey, s.client_pubkey);
    assert_eq!(back.req, vec![1, 2, 3]);
    assert_eq!(BodyAfterHandshake::from_bytes(&b[..19]).unwrap_err(), ProtocolError::GeneralError);
    assert_eq!(BodyAfterHandshake::from_bytes(&b[..21]).unwrap_err(), ProtocolError::GeneralError);
}

#[test]
fn open_bound_checks_binding_then_opens() {
    let mut table = SessionTable::new();
    let (req, secret) = client_hello(PASSWORD);
    let resp = table.accept(&req, PASSWORD);
    let (id, key) = client_session_key(&secret, &resp).unwrap();
    let sealed = EncMessage::generate(&key, b"test case stdin");
    let good = BodyAfterHandshake { node_id: id, client_pubkey: req.client_pubkey.clone(), req: sealed.clone() };
    assert_eq!(table.open_bound(&good).unwrap(), b"test case stdin".to_vec());
    let stranger = BodyAfterHandshake { node_id: id ^ 1, client_pubkey: req.client_pubkey.clone(), req: sealed.clone() };
    assert_eq!(table.open_bound(&stranger).unwrap_err(), ProtocolError::AuthFailure);
    let other_key = BodyAfterHandshake {
        node_id: id,
        client_pubkey: req.client_pubkey.clone(),
        req: EncMessage::generate(&[0u8; 32], b"x"),
    };
    assert_eq!(table.open_bound(&other_key).unwrap_err(), ProtocolError::AuthFailure);
}

#[test]
fn failed_handshakes_carry_no_fields() {
    let (req, _) = client_hello(b"nope");
    let (_, server_secret) = client_hello(b"");
    let (resp, session) = respond(&req, PASSWORD, &server_secret, 3);
    assert_eq!(resp.result, HandshakeResult::PasswordNotMatched);
    assert!(resp.node_id.is_none());
    assert!(resp.server_pubkey.is_none());
    assert!(session.is_none());
}

#[test]
fn handshake_request_bytes_round_trip() {
    let req = HandshakeRequest { client_pubkey: vec![2, 7], pass: b"pw".to_vec() };
    let b = req.bytes();
    assert_eq!(b, vec![0, 0, 0, 2, 2, 7, 0, 0, 0, 2, b'p', b'w']);
    let back = HandshakeRequest::from_bytes(&b).unwrap();
    assert_eq!(back.client_pubkey, req.client_pubkey);
    assert_eq!(back.pass, req.pass);
    assert_eq!(HandshakeRequest::from_bytes(&b[..11]).unwrap_err(), ProtocolError::GeneralError);
    let mut longer = b.clone();
    longer.push(0);
    assert_eq!(HandshakeRequest::from_bytes(&longer).unwrap_err(), ProtocolError::GeneralError);
}

#[test]
fn handshake_response_bytes_round_trip() {
    let ok = HandshakeResponse { result: HandshakeResult::Success, node_id: Some(5), server_pubkey: Some(vec![3]) };
    let b = ok.bytes();
    let mut expected = vec![0, 0, 0, 0, 1];
    expected.extend_from_slice(&5u128.to_be_bytes());
    expected.extend_from_slice(&[1, 0, 0, 0, 1, 3]);
    assert_eq!(b, expected);
    let back = HandshakeResponse::from_bytes(&b).unwrap();
    assert_eq!(back.result, HandshakeResult::Success);
    assert_eq!(back.node_id, Some(5));
    assert_eq!(back.server_pubkey, Some(vec![3]));

    let refused = HandshakeResponse::failure(HandshakeResult::PasswordNotMatched);
    let b = refused.bytes();
    assert_eq!(b, vec![0, 0, 0, 1, 0, 0]);
    let back = HandshakeResponse::from_bytes(&b).unwrap();
    assert_eq!(back.result, HandshakeResult::PasswordNotMatched);
    assert!(back.node_id.is_none() && back.server_pubkey.is_none());

    assert_eq!(HandshakeResponse::from_bytes(&[0, 0, 0, 9, 0, 0]).unwrap_err(), ProtocolError::GeneralError);
    assert_eq!(HandshakeResponse::from_bytes(&[0, 0, 0, 1, 2, 0]).unwrap_err(), ProtocolError::GeneralError);
    assert_eq!(HandshakeResponse::from_bytes(&[0, 0, 0, 1, 0]).unwrap_err(), ProtocolError::GeneralError);
}

#[test]
fn full_handshake_over_canonical_bytes() {
    let mut table = SessionTable::new();
    let (req, secret) = client_hello(PASSWORD);
    let server_req = HandshakeRequest::from_bytes(&req.bytes()).unwrap();
    let resp = table.accept(&server_req, PASSWORD);
    let client_resp = HandshakeResponse::from_bytes(&resp.bytes()).unwrap();
    let (id, key) = client_session_key(&secret, &client_resp).unwrap();
    assert_eq!(table.sessions[0].node_id, id);
    assert_eq!(table.sessions[0].key, key);
}

#[test]
fn table_well_formedness_check() {
    let mut table = SessionTable::new();
    assert!(table.is_wf());
    table.sessions.push(Session { node_id: 1, key: [0; 32], client_pubkey: vec![] });
    table.sessions.push(Session { node_id: 2, key: [0; 32], client_pubkey: vec![] });
    assert!(table.is_wf());
    table.sessions.push(Session { node_id: 1, key: [1; 32], client_pubkey: vec![] });
    assert!(!table.is_wf());
}
