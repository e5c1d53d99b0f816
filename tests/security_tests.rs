use judge_protocol::error::ProtocolError;
use judge_protocol::security::{expand_key, standard_decrypt, standard_encrypt, EncMessage};
use std::collections::HashSet;

#[test]
fn seal_then_open_gives_plaintext() {
    let key = [7u8; 32];
    for text in [&b""[..], &b"int main() { return 0; }"[..], &[0u8; 1000][..]] {
        let m = EncMessage::generate(&key, text);
        assert_eq!(m.nonce.len(), 12);
        assert_eq!(m.ciphertext.len(), text.len() + 16);
        assert_eq!(m.decrypt(&key).unwrap(), text.to_vec());
    }
}

#[test]
fn ciphertext_differs_from_plaintext() {
    let key = [1u8; 32];
    let nonce = [2u8; 12];
    let text = b"confidential source code";
    let c = standard_encrypt(&key, &nonce, text);
    assert_ne!(&c[..text.len()], &text[..]);
    assert_eq!(standard_encrypt(&key, &nonce, text), c);
    assert_eq!(standard_decrypt(&key, &nonce, &c), Some(text.to_vec()));
}

#[test]
fn wrong_key_fails() {
    let m = EncMessage::generate(&[3u8; 32], b"stdin data");
    assert_eq!(m.decrypt(&[4u8; 32]).unwrap_err(), ProtocolError::AuthFailure);
}

#[test]
fn tampered_nonce_fails() {
    let key = [5u8; 32];
    let mut m = EncMessage::generate(&key, b"expected output");
    m.nonce[0] ^= 1;
    assert_eq!(m.decrypt(&key).unwrap_err(), ProtocolError::AuthFailure);
}

#[test]
fn tampered_ciphertext_fails() {
    let key = [6u8; 32];
    let m = EncMessage::generate(&key, b"expected output");
    for k in 0..m.ciphertext.len() {
        let mut t = m.clone();
        t.ciphertext[k] ^= 0x40;
        assert_eq!(t.decrypt(&key).unwrap_err(), ProtocolError::AuthFailure);
    }
    let mut short = m.clone();
    short.ciphertext.truncate(10);
    assert_eq!(short.decrypt(&key).unwrap_err(), ProtocolError::AuthFailure);
}

#[test]
fn malformed_nonce_fails() {
    let key = [8u8; 32];
    let mut m = EncMessage::generate(&key, b"x");
    m.nonce.pop();
    assert_eq!(m.decrypt(&key).unwrap_err(), ProtocolError::AuthFailure);
}

#[test]
fn nonces_do_not_collide() {
    let key = [9u8; 32];
    let mut seen = HashSet::new();
    for _ in 0..2000 {
        let m = EncMessage::generate(&key, b"same text");
        assert!(seen.insert(m.nonce.clone()));
    }
}

#[test]
fn expand_key_is_deterministic_and_mixes() {
    let shared = [0x11u8; 32];
    let k1 = expand_key(&shared);
    let k2 = expand_key(&shared);
    assert_eq!(k1, k2);
    assert_ne!(k1, shared);
    assert_ne!(expand_key(&[0x12u8; 32]), k1);
}

#[test]
fn envelope_bytes_round_trip() {
    let m = EncMessage { nonce: vec![1; 12], ciphertext: vec![9, 8, 7] };
    let b = m.bytes();
    let mut expected = vec![0, 0, 0, 12];
    expected.extend_from_slice(&[1; 12]);
    expected.extend_from_slice(&[0, 0, 0, 3, 9, 8, 7]);
    assert_eq!(b, expected);
    let back = EncMessage::from_bytes(&b).unwrap();
    assert_eq!(back.nonce, m.nonce);
    assert_eq!(back.ciphertext, m.ciphertext);
    assert_eq!(EncMessage::from_bytes(&b[..b.len() - 1]).unwrap_err(), ProtocolError::GeneralError);
    let mut longer = b.clone();
    longer.push(0);
    assert_eq!(EncMessage::from_bytes(&longer).unwrap_err(), ProtocolError::GeneralError);
}

#[test]
fn sealed_field_survives_encoding() {
    let key = [3u8; 32];
    let m = EncMessage::generate(&key, b"source");
    let back = EncMessage::from_bytes(&m.bytes()).unwrap();
    assert_eq!(back.decrypt(&key).unwrap(), b"source".to_vec());
}
