use judge_protocol::error::ProtocolError;
use judge_protocol::judge::{
    decode_state, encode_state, JudgeRequestBody, JudgeRequestBodyv2, JudgeResponseBody,
    JudgeState, TestCaseUpdateBody,
};
use judge_protocol::security::EncMessage;

#[test]
fn accepted_round_trips_intact() {
    let job = 0xDEADBEEF_u128 << 64 | 42;
    let b = encode_state(&JudgeState::Accepted(job, 120, 4096));
    let mut expected = vec![0, 0, 0, 2];
    expected.extend_from_slice(&job.to_be_bytes());
    expected.extend_from_slice(&120u64.to_be_bytes());
    expected.extend_from_slice(&4096u64.to_be_bytes());
    assert_eq!(b, expected);
    match decode_state(&b).unwrap() {
        JudgeState::Accepted(j, t, m) => {
            assert_eq!(j, job);
            assert_eq!(t, 120);
            assert_eq!(m, 4096);
        }
        other => panic!("decoded {:?}", other),
    }
}

#[test]
fn every_variant_round_trips() {
    let states = vec![
        JudgeState::DoCompile,
        JudgeState::CompleteCompile("ok".to_string()),
        JudgeState::Complete(1, 0.75f64.to_bits(), 10, 20),
        JudgeState::CompileError("main.cpp:1: error: ünïcode".to_string()),
        JudgeState::RuntimeError(2, -11),
        JudgeState::DiedOnSignal(3, 9),
        JudgeState::InternalError(4),
        JudgeState::GeneralError(String::new()),
        JudgeState::UnknownError,
        JudgeState::LanguageNotFound,
        JudgeState::TimeLimitExceed(5),
        JudgeState::MemLimitExceed(6),
        JudgeState::WrongAnswer(7, 8, 9),
        JudgeState::LockedSlave,
        JudgeState::UnlockedSlave,
        JudgeState::JudgeNotFound,
    ];
    for s in states {
        let b = encode_state(&s);
        let back = decode_state(&b).unwrap();
        assert_eq!(format!("{:?}", back), format!("{:?}", s));
        assert_eq!(encode_state(&back), b);
    }
}

#[test]
fn malformed_state_bytes_rejected() {
    assert_eq!(decode_state(&[0, 0, 0]).unwrap_err(), ProtocolError::GeneralError);
    assert_eq!(decode_state(&[0, 0, 0, 99]).unwrap_err(), ProtocolError::GeneralError);
    assert_eq!(decode_state(&[0, 0, 0, 0, 1]).unwrap_err(), ProtocolError::GeneralError);
    assert_eq!(decode_state(&[0, 0, 0, 7, 1, 2]).unwrap_err(), ProtocolError::GeneralError);
    // text whose declared length disagrees with its bytes
    assert_eq!(decode_state(&[0, 0, 0, 4, 0, 0, 0, 3, b'a']).unwrap_err(), ProtocolError::GeneralError);
    // text that is not UTF-8
    assert_eq!(decode_state(&[0, 0, 0, 4, 0, 0, 0, 1, 0xFF]).unwrap_err(), ProtocolError::GeneralError);
}

#[test]
fn exit_code_bytes_exact() {
    let b = encode_state(&JudgeState::RuntimeError(0, -1));
    assert_eq!(b.len(), 4 + 16 + 4);
    assert_eq!(&b[20..], &[0xFF, 0xFF, 0xFF, 0xFF]);
    let t = encode_state(&JudgeState::CompileError("hé".to_string()));
    assert_eq!(t, vec![0, 0, 0, 4, 0, 0, 0, 3, b'h', 0xC3, 0xA9]);
}

#[test]
fn response_body_round_trips() {
    let body = JudgeResponseBody { uuid: 77, result: JudgeState::WrongAnswer(5, 300, 2048) };
    let b = body.bytes();
    assert_eq!(b.len(), 16 + 4 + 16 + 8 + 8);
    assert_eq!(&b[..16], &77u128.to_be_bytes());
    let back = JudgeResponseBody::from_bytes(&b).unwrap();
    assert_eq!(back.uuid, 77);
    assert_eq!(format!("{:?}", back.result), format!("{:?}", body.result));
    assert_eq!(JudgeResponseBody::from_bytes(&b[..15]).unwrap_err(), ProtocolError::GeneralError);
    assert_eq!(JudgeResponseBody::from_bytes(&b[..b.len() - 1]).unwrap_err(), ProtocolError::GeneralError);
}

fn sealed(n: u8, c: &[u8]) -> EncMessage {
    EncMessage { nonce: vec![n; 12], ciphertext: c.to_vec() }
}

#[test]
fn request_body_round_trips() {
    let body = JudgeRequestBody {
        uuid: 1,
        main_lang: 2,
        checker_lang: 3,
        checker_code: sealed(4, b"chk"),
        main_code: sealed(5, b"main"),
        time_limit: 1000,
        mem_limit: 65536,
    };
    let b = body.bytes();
    assert_eq!(b.len(), 48 + (4 + 12 + 4 + 3) + (4 + 12 + 4 + 4) + 16);
    let back = JudgeRequestBody::from_bytes(&b).unwrap();
    assert_eq!(format!("{:?}", back), format!("{:?}", body));
    assert_eq!(
        JudgeRequestBody::from_bytes(&b[..b.len() - 1]).unwrap_err(),
        ProtocolError::GeneralError
    );
    let mut longer = b.clone();
    longer.push(0);
    assert_eq!(
        JudgeRequestBody::from_bytes(&longer).unwrap_err(),
        ProtocolError::GeneralError
    );
}

#[test]
fn request_body_v2_round_trips() {
    let body = JudgeRequestBodyv2 {
        uuid: 1,
        main_lang: 2,
        checker_lang: 3,
        manager_lang: 4,
        checker_code: sealed(5, b"c"),
        main_code: sealed(6, b"m"),
        manager_code: sealed(7, b""),
        graders: sealed(8, b"gr"),
        main_path: "main.cpp".to_string(),
        object_path: "obj/é".to_string(),
        time_limit: 2,
        mem_limit: 3,
    };
    let b = body.bytes();
    let back = JudgeRequestBodyv2::from_bytes(&b).unwrap();
    assert_eq!(format!("{:?}", back), format!("{:?}", body));
    assert_eq!(
        JudgeRequestBodyv2::from_bytes(&b[..40]).unwrap_err(),
        ProtocolError::GeneralError
    );
}

#[test]
fn test_case_update_round_trips() {
    let body = TestCaseUpdateBody {
        uuid: 10,
        test_uuid: 11,
        stdin: sealed(1, b"1 2"),
        stdout: sealed(2, b"3"),
    };
    let b = body.bytes();
    assert_eq!(&b[..16], &10u128.to_be_bytes());
    assert_eq!(&b[32..36], &[0, 0, 0, 12]);
    let back = TestCaseUpdateBody::from_bytes(&b).unwrap();
    assert_eq!(format!("{:?}", back), format!("{:?}", body));
    assert_eq!(
        TestCaseUpdateBody::from_bytes(&b[..20]).unwrap_err(),
        ProtocolError::GeneralError
    );
}
