use judge_protocol::codec::{bytes_eq, digest};
use judge_protocol::constants::{DIGEST_SIZE, HEADER_SIZE, MAGIC, MAX_BODY_SIZE};
use judge_protocol::error::ProtocolError;
use judge_protocol::packet::{decode, encode, frame_len, Command, Packet};

const ALL: [Command; 13] = [
    Command::Handshake,
    Command::VerifyToken,
    Command::GetLogin,
    Command::ReqJudge,
    Command::ReqJudgev2,
    Command::GetJudgeStateUpdate,
    Command::ReqVerifyToken,
    Command::ReqLogin,
    Command::GetJudge,
    Command::GetJudgev2,
    Command::TestCaseUpdate,
    Command::TestCaseEnd,
    Command::Unknown,
];

fn with_digest(mut covered: Vec<u8>) -> Vec<u8> {
    let d = digest(&covered, covered.len());
    covered.extend_from_slice(&d);
    covered
}

#[test]
fn it_works() {
    let result = 2 + 2;
    assert_eq!(result, 4);
}

#[test]
fn command_codes_round_trip() {
    for c in ALL {
        assert_eq!(Command::from_code(c.code()), Some(c));
    }
    assert_eq!(Command::GetJudgev2.code(), 0xFF03);
    assert_eq!(Command::Unknown.code(), 0xFFFF);
    assert_eq!(Command::from_code(0x1234), None);
}

#[test]
fn empty_frame_exact_bytes() {
    let f = encode(Command::Handshake, &[]).unwrap();
    // byte sum 431, running sum 4482
    let expected: Vec<u8> = vec![
        0x59, 0x6F, 0x72, 0x75, 0, 0, 0, 0, 0, 0, 0, 0, //
        0, 0, 0, 0, 0, 0, 0x01, 0xAF, 0, 0, 0, 0, 0, 0, 0x11, 0x82,
    ];
    assert_eq!(f, expected);
}

#[test]
fn digest_exact_values() {
    assert_eq!(digest(&[], 0), vec![0u8; 16]);
    assert_eq!(digest(&[1, 2], 2), vec![0, 0, 0, 0, 0, 0, 0, 3, 0, 0, 0, 0, 0, 0, 0, 4]);
    assert_ne!(digest(&[1, 2], 2), digest(&[2, 1], 2));
}

#[test]
fn round_trip_every_command() {
    let body: Vec<u8> = (0..=255u8).collect();
    for c in ALL {
        let f = encode(c, &body).unwrap();
        assert_eq!(f.len(), HEADER_SIZE + body.len() + DIGEST_SIZE);
        let p = decode(&f).unwrap();
        assert_eq!(p.header.command, c);
        assert!(p.header.check_magic());
        assert_eq!(p.body, body);
    }
}

#[test]
fn serialize_matches_encode() {
    let p = Packet::make_packet(Command::ReqJudge, vec![9, 8, 7]);
    assert_eq!(p.serialize(), encode(Command::ReqJudge, &[9, 8, 7]).unwrap());
    assert_eq!(p.header.magic, MAGIC);
}

#[test]
fn single_byte_flip_never_decodes() {
    let f = encode(Command::TestCaseUpdate, b"hello judge").unwrap();
    for k in 0..f.len() {
        for delta in [1u8, 0x80, 0xFF] {
            let mut t = f.clone();
            t[k] = t[k].wrapping_add(delta);
            let r = decode(&t);
            assert!(r.is_err(), "byte {} changed by {} decoded", k, delta);
            let e = r.unwrap_err();
            if k < 8 || k >= 12 {
                assert!(
                    e == ProtocolError::BadMagic || e == ProtocolError::IntegrityFailure,
                    "byte {}: {:?}",
                    k,
                    e
                );
            }
        }
    }
    let mut t = f.clone();
    t[0] ^= 1;
    assert_eq!(decode(&t).unwrap_err(), ProtocolError::BadMagic);
    let mut t = f.clone();
    t[13] ^= 1;
    assert_eq!(decode(&t).unwrap_err(), ProtocolError::IntegrityFailure);
}

#[test]
fn declared_length_beyond_bytes_is_truncated() {
    let f = encode(Command::ReqJudge, &[1, 2, 3, 4]).unwrap();
    let mut t = f.clone();
    t[11] = 200;
    assert_eq!(decode(&t).unwrap_err(), ProtocolError::Truncated);
    assert_eq!(decode(&f[..f.len() - 1]).unwrap_err(), ProtocolError::Truncated);
    assert_eq!(decode(&f[..5]).unwrap_err(), ProtocolError::MalformedHeader);
    assert_eq!(decode(&[]).unwrap_err(), ProtocolError::MalformedHeader);
}

#[test]
fn shorter_declared_length_leaves_trailing_bytes() {
    let f = encode(Command::ReqJudge, &[1, 2, 3, 4]).unwrap();
    let mut t = f.clone();
    t[11] = 2;
    assert_eq!(decode(&t).unwrap_err(), ProtocolError::TrailingBytes);
    let mut t = f.clone();
    t.push(0);
    assert_eq!(decode(&t).unwrap_err(), ProtocolError::TrailingBytes);
}

#[test]
fn oversized_length_rejected_before_body() {
    let mut h: Vec<u8> = vec![0x59, 0x6F, 0x72, 0x75, 0, 0, 0, 3];
    h.extend_from_slice(&(MAX_BODY_SIZE + 1).to_be_bytes());
    assert_eq!(frame_len(&h).unwrap_err(), ProtocolError::OversizedLength);
    assert_eq!(decode(&h).unwrap_err(), ProtocolError::OversizedLength);
    let mut ok = h.clone();
    ok[8..12].copy_from_slice(&MAX_BODY_SIZE.to_be_bytes());
    assert_eq!(frame_len(&ok).unwrap(), HEADER_SIZE + MAX_BODY_SIZE as usize + DIGEST_SIZE);
    let big = vec![0u8; MAX_BODY_SIZE as usize + 1];
    assert_eq!(encode(Command::ReqJudge, &big).unwrap_err(), ProtocolError::OversizedLength);
}

#[test]
fn frame_len_checks() {
    let f = encode(Command::GetJudge, &[5; 10]).unwrap();
    assert_eq!(frame_len(&f[..12]).unwrap(), 12 + 10 + 16);
    assert_eq!(frame_len(&f[..11]).unwrap_err(), ProtocolError::MalformedHeader);
    let mut t = f.clone();
    t[2] = 0;
    assert_eq!(frame_len(&t).unwrap_err(), ProtocolError::BadMagic);
}

#[test]
fn unknown_code_with_good_digest() {
    let mut covered: Vec<u8> = vec![0x59, 0x6F, 0x72, 0x75, 0, 0, 0x12, 0x34, 0, 0, 0, 1];
    covered.push(42);
    let f = with_digest(covered);
    assert_eq!(decode(&f).unwrap_err(), ProtocolError::UnknownCommand);
}

#[test]
fn constant_time_compare() {
    assert!(bytes_eq(b"secret", b"secret"));
    assert!(!bytes_eq(b"secret", b"secreT"));
    assert!(!bytes_eq(b"secret", b"secrets"));
    assert!(bytes_eq(b"", b""));
}

#[test]
fn serialize_keeps_a_wrong_magic() {
    let mut p = Packet::make_packet(Command::ReqJudge, vec![1]);
    p.header.magic = 0;
    assert!(!p.header.check_magic());
    let f = p.serialize();
    assert_eq!(&f[..4], &[0, 0, 0, 0]);
    assert_eq!(decode(&f).unwrap_err(), ProtocolError::BadMagic);
}
