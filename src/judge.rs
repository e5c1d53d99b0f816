//! The judge payloads that travel inside session-bound envelopes, and the
//! canonical encoding of a job's state: a big-endian tag, then the variant's
//! fields in fixed width, text as UTF-8 after its length.
use vstd::prelude::*;
use vstd::utf8::{decode_utf8, encode_utf8, valid_utf8};
use crate::codec::{
    be128, be128_at, be32, be32_at, be64, copy_range, lemma_be128_of_value,
    lemma_be128_round_trip, lemma_be32_of_value, lemma_be32_round_trip, lemma_be64_of_value,
    lemma_be64_round_trip, lemma_i32_round_trip, append_bytes, push_be128, push_be32, push_be64,
    read_be128, read_be32, read_be64,
};
use crate::codec::{
    field_bytes, lemma_take_field, lemma_take_u128, lemma_take_u64, take_field, take_field_at,
    take_u128, take_u128_at, take_u64, take_u64_at,
};
use crate::error::ProtocolError;
use crate::security::{enc_bytes, enc_fits, lemma_take_enc, take_enc, EncMessage};

verus! {

/// Where a job stands. Ids are 128-bit job identifiers; times are in ms and
/// memory in KiB.
#[derive(Clone, Debug)]
pub enum JudgeState {
    /* State */
    DoCompile,
    CompleteCompile(String),
    /* Results */
    // AC or Complete
    Accepted(u128, u64, u64),
    /// The score travels as the IEEE-754 bits of a double.
    Complete(u128, u64, u64, u64),
    // CE
    CompileError(String),
    // RE* || NZEC
    RuntimeError(u128, i32),
    DiedOnSignal(u128, i32),
    // FJ (Failed to judge)
    InternalError(u128),
    // General
    GeneralError(String),
    UnknownError,
    LanguageNotFound,
    // TLE
    TimeLimitExceed(u128),
    // MLE
    MemLimitExceed(u128),
    // WA
    WrongAnswer(u128, u64, u64),
    // Internal
    LockedSlave,
    UnlockedSlave,
    JudgeNotFound,
}

#[derive(Clone, Debug)]
pub struct JudgeRequestBody {
    pub uuid: u128,
    pub main_lang: u128,
    pub checker_lang: u128,
    pub checker_code: EncMessage,
    pub main_code: EncMessage,
    pub time_limit: u64,
    pub mem_limit: u64,
}

#[derive(Clone, Debug)]
pub struct JudgeRequestBodyv2 {
    pub uuid: u128,
    pub main_lang: u128,
    pub checker_lang: u128,
    pub manager_lang: u128,
    pub checker_code: EncMessage,
    pub main_code: EncMessage,
    pub manager_code: EncMessage,
    pub graders: EncMessage,
    pub main_path: String,
    pub object_path: String,
    pub time_limit: u64,
    pub mem_limit: u64,
}

#[derive(Clone, Debug)]
pub struct TestCaseUpdateBody {
    pub uuid: u128,
    pub test_uuid: u128,
    pub stdin: EncMessage,
    pub stdout: EncMessage,
}

#[derive(Clone, Debug)]
pub struct JudgeResponseBody {
    pub uuid: u128,
    pub result: JudgeState,
}

/// Relies on `String::from_utf8`: it succeeds exactly on valid UTF-8, and
/// the string then holds the decoded characters.
#[verifier::external_body]
fn utf8_string(b: &[u8]) -> (r: Option<String>)
    ensures
        match r {
            Some(s) => valid_utf8(b@) && s@ == decode_utf8(b@),
            None => !valid_utf8(b@),
        },
{
    String::from_utf8(b.to_vec()).ok()
}

/// A text field: its UTF-8 length, then its UTF-8 bytes.
pub open spec fn text_bytes(s: Seq<char>) -> Seq<u8> {
    be32(encode_utf8(s).len() as u32) + encode_utf8(s)
}

/// Whether a text fits its 32-bit length field.
pub open spec fn text_fits(s: Seq<char>) -> bool {
    encode_utf8(s).len() <= u32::MAX
}

pub open spec fn tag_of(st: JudgeState) -> u32 {
    match st {
        JudgeState::DoCompile => 0,
        JudgeState::CompleteCompile(_) => 1,
        JudgeState::Accepted(..) => 2,
        JudgeState::Complete(..) => 3,
        JudgeState::CompileError(_) => 4,
        JudgeState::RuntimeError(..) => 5,
        JudgeState::DiedOnSignal(..) => 6,
        JudgeState::InternalError(_) => 7,
        JudgeState::GeneralError(_) => 8,
        JudgeState::UnknownError => 9,
        JudgeState::LanguageNotFound => 10,
        JudgeState::TimeLimitExceed(_) => 11,
        JudgeState::MemLimitExceed(_) => 12,
        JudgeState::WrongAnswer(..) => 13,
        JudgeState::LockedSlave => 14,
        JudgeState::UnlockedSlave => 15,
        JudgeState::JudgeNotFound => 16,
    }
}

/// The fields of a state, encoded.
pub open spec fn payload_bytes(st: JudgeState) -> Seq<u8> {
    match st {
        JudgeState::CompleteCompile(s) => text_bytes(s@),
        JudgeState::Accepted(id, t, m) => be128(id) + be64(t) + be64(m),
        JudgeState::Complete(id, score, t, m) => be128(id) + be64(score) + be64(t) + be64(m),
        JudgeState::CompileError(s) => text_bytes(s@),
        JudgeState::RuntimeError(id, c) => be128(id) + be32(c as u32),
        JudgeState::DiedOnSignal(id, c) => be128(id) + be32(c as u32),
        JudgeState::InternalError(id) => be128(id),
        JudgeState::GeneralError(s) => text_bytes(s@),
        JudgeState::TimeLimitExceed(id) => be128(id),
        JudgeState::MemLimitExceed(id) => be128(id),
        JudgeState::WrongAnswer(id, t, m) => be128(id) + be64(t) + be64(m),
        _ => Seq::empty(),
    }
}

/// The canonical bytes of a state.
pub open spec fn state_bytes(st: JudgeState) -> Seq<u8> {
    be32(tag_of(st)) + payload_bytes(st)
}

/// Whether every text of a state fits its length field.
pub open spec fn encodable(st: JudgeState) -> bool {
    match st {
        JudgeState::CompleteCompile(s) => text_fits(s@),
        JudgeState::CompileError(s) => text_fits(s@),
        JudgeState::GeneralError(s) => text_fits(s@),
        _ => true,
    }
}

/// Two states of one variant with the same fields, texts compared by their
/// characters.
pub open spec fn same_state(a: JudgeState, b: JudgeState) -> bool {
    match (a, b) {
        (JudgeState::CompleteCompile(x), JudgeState::CompleteCompile(y)) => x@ == y@,
        (JudgeState::CompileError(x), JudgeState::CompileError(y)) => x@ == y@,
        (JudgeState::GeneralError(x), JudgeState::GeneralError(y)) => x@ == y@,
        (JudgeState::CompleteCompile(_), _) => false,
        (JudgeState::CompileError(_), _) => false,
        (JudgeState::GeneralError(_), _) => false,
        _ => a == b,
    }
}

proof fn lemma_state_bytes_split(st: JudgeState)
    ensures
        state_bytes(st).len() >= 4,
        be32_at(state_bytes(st), 0) == tag_of(st),
        state_bytes(st).subrange(4, state_bytes(st).len() as int) == payload_bytes(st),
{
    let b = state_bytes(st);
    let t = be32(tag_of(st));
    lemma_be32_round_trip(tag_of(st));
    assert(b[0] == t[0] && b[1] == t[1] && b[2] == t[2] && b[3] == t[3]);
    assert(b.subrange(4, b.len() as int) =~= payload_bytes(st));
}

proof fn lemma_text_injective(x: Seq<char>, y: Seq<char>)
    requires
        text_bytes(x) == text_bytes(y),
    ensures
        x == y,
{
    let bx = text_bytes(x);
    assert(bx.subrange(4, bx.len() as int) =~= encode_utf8(x));
    assert(text_bytes(y).subrange(4, bx.len() as int) =~= encode_utf8(y));
    vstd::utf8::encode_utf8_decode_utf8(x);
    vstd::utf8::encode_utf8_decode_utf8(y);
}

proof fn lemma_fields_injective(a: u128, b: u128, rest_a: Seq<u8>, rest_b: Seq<u8>)
    requires
        be128(a) + rest_a == be128(b) + rest_b,
    ensures
        a == b,
        rest_a == rest_b,
{
    let sa = be128(a) + rest_a;
    assert(sa.subrange(0, 16) =~= be128(a));
    assert((be128(b) + rest_b).subrange(0, 16) =~= be128(b));
    lemma_be128_round_trip(a);
    lemma_be128_round_trip(b);
    assert(sa.subrange(16, sa.len() as int) =~= rest_a);
    assert((be128(b) + rest_b).subrange(16, sa.len() as int) =~= rest_b);
}

proof fn lemma_two_u64_injective(a1: u64, a2: u64, b1: u64, b2: u64)
    requires
        be64(a1) + be64(a2) == be64(b1) + be64(b2),
    ensures
        a1 == b1 && a2 == b2,
{
    let s = be64(a1) + be64(a2);
    assert(s.subrange(0, 8) =~= be64(a1));
    assert((be64(b1) + be64(b2)).subrange(0, 8) =~= be64(b1));
    assert(s.subrange(8, 16) =~= be64(a2));
    assert((be64(b1) + be64(b2)).subrange(8, 16) =~= be64(b2));
    lemma_be64_round_trip(a1);
    lemma_be64_round_trip(a2);
    lemma_be64_round_trip(b1);
    lemma_be64_round_trip(b2);
}

/// A state's bytes determine it: two states with the same canonical bytes
/// are one variant with the same fields.
#[verifier::rlimit(100)]
pub proof fn lemma_state_bytes_injective(a: JudgeState, b: JudgeState)
    requires
        state_bytes(a) == state_bytes(b),
    ensures
        same_state(a, b),
{
    lemma_state_bytes_split(a);
    lemma_state_bytes_split(b);
    assert(tag_of(a) == tag_of(b));
    assert(payload_bytes(a) == payload_bytes(b));
    match (a, b) {
        (JudgeState::CompleteCompile(x), JudgeState::CompleteCompile(y)) => lemma_text_injective(x@, y@),
        (JudgeState::CompileError(x), JudgeState::CompileError(y)) => lemma_text_injective(x@, y@),
        (JudgeState::GeneralError(x), JudgeState::GeneralError(y)) => lemma_text_injective(x@, y@),
        (JudgeState::Accepted(i, t, m), JudgeState::Accepted(j, u, n)) => {
            assert(be128(i) + be64(t) + be64(m) =~= be128(i) + (be64(t) + be64(m)));
            assert(be128(j) + be64(u) + be64(n) =~= be128(j) + (be64(u) + be64(n)));
            lemma_fields_injective(i, j, be64(t) + be64(m), be64(u) + be64(n));
            lemma_two_u64_injective(t, m, u, n);
        },
        (JudgeState::WrongAnswer(i, t, m), JudgeState::WrongAnswer(j, u, n)) => {
            assert(be128(i) + be64(t) + be64(m) =~= be128(i) + (be64(t) + be64(m)));
            assert(be128(j) + be64(u) + be64(n) =~= be128(j) + (be64(u) + be64(n)));
            lemma_fields_injective(i, j, be64(t) + be64(m), be64(u) + be64(n));
            lemma_two_u64_injective(t, m, u, n);
        },
        (JudgeState::Complete(i, sc, t, m), JudgeState::Complete(j, sd, u, n)) => {
            let ra = be64(sc) + be64(t) + be64(m);
            let rb = be64(sd) + be64(u) + be64(n);
            assert(be128(i) + be64(sc) + be64(t) + be64(m) =~= be128(i) + ra);
            assert(be128(j) + be64(sd) + be64(u) + be64(n) =~= be128(j) + rb);
            lemma_fields_injective(i, j, ra, rb);
            assert(ra.subrange(0, 16) =~= be64(sc) + be64(t));
            assert(rb.subrange(0, 16) =~= be64(sd) + be64(u));
            lemma_two_u64_injective(sc, t, sd, u);
            assert(ra.subrange(8, 24) =~= be64(t) + be64(m));
            assert(rb.subrange(8, 24) =~= be64(u) + be64(n));
            lemma_two_u64_injective(t, m, u, n);
        },
        (JudgeState::RuntimeError(i, c), JudgeState::RuntimeError(j, d)) => {
            lemma_fields_injective(i, j, be32(c as u32), be32(d as u32));
            lemma_be32_round_trip(c as u32);
            lemma_be32_round_trip(d as u32);
            lemma_i32_round_trip(c);
            lemma_i32_round_trip(d);
        },
        (JudgeState::DiedOnSignal(i, c), JudgeState::DiedOnSignal(j, d)) => {
            lemma_fields_injective(i, j, be32(c as u32), be32(d as u32));
            lemma_be32_round_trip(c as u32);
            lemma_be32_round_trip(d as u32);
            lemma_i32_round_trip(c);
            lemma_i32_round_trip(d);
        },
        (JudgeState::InternalError(i), JudgeState::InternalError(j)) => {
            lemma_fields_injective(i, j, Seq::empty(), Seq::empty());
            assert(be128(i) + Seq::<u8>::empty() =~= be128(i));
            assert(be128(j) + Seq::<u8>::empty() =~= be128(j));
        },
        (JudgeState::TimeLimitExceed(i), JudgeState::TimeLimitExceed(j)) => {
            assert(be128(i) + Seq::<u8>::empty() =~= be128(i));
            assert(be128(j) + Seq::<u8>::empty() =~= be128(j));
            lemma_fields_injective(i, j, Seq::empty(), Seq::empty());
        },
        (JudgeState::MemLimitExceed(i), JudgeState::MemLimitExceed(j)) => {
            assert(be128(i) + Seq::<u8>::empty() =~= be128(i));
            assert(be128(j) + Seq::<u8>::empty() =~= be128(j));
            lemma_fields_injective(i, j, Seq::empty(), Seq::empty());
        },
        _ => {},
    }
}

fn push_text(out: &mut Vec<u8>, s: &String)
    requires
        text_fits(s@),
    ensures
        final(out)@ == old(out)@ + text_bytes(s@),
{
    let b = s.as_str().as_bytes();
    push_be32(out, b.len() as u32);
    append_bytes(out, b);
    assert(final(out)@ =~= old(out)@ + text_bytes(s@));
}

/// The canonical bytes of `st`.
pub fn encode_state(st: &JudgeState) -> (r: Vec<u8>)
    requires
        encodable(*st),
    ensures
        r@ == state_bytes(*st),
{
    let mut out: Vec<u8> = Vec::new();
    match st {
        JudgeState::DoCompile => push_be32(&mut out, 0),
        JudgeState::CompleteCompile(s) => {
            push_be32(&mut out, 1);
            push_text(&mut out, s);
        },
        JudgeState::Accepted(id, t, m) => {
            push_be32(&mut out, 2);
            push_be128(&mut out, *id);
            push_be64(&mut out, *t);
            push_be64(&mut out, *m);
        },
        JudgeState::Complete(id, score, t, m) => {
            push_be32(&mut out, 3);
            push_be128(&mut out, *id);
            push_be64(&mut out, *score);
            push_be64(&mut out, *t);
            push_be64(&mut out, *m);
        },
        JudgeState::CompileError(s) => {
            push_be32(&mut out, 4);
            push_text(&mut out, s);
        },
        JudgeState::RuntimeError(id, c) => {
            push_be32(&mut out, 5);
            push_be128(&mut out, *id);
            push_be32(&mut out, *c as u32);
        },
        JudgeState::DiedOnSignal(id, c) => {
            push_be32(&mut out, 6);
            push_be128(&mut out, *id);
            push_be32(&mut out, *c as u32);
        },
        JudgeState::InternalError(id) => {
            push_be32(&mut out, 7);
            push_be128(&mut out, *id);
        },
        JudgeState::GeneralError(s) => {
            push_be32(&mut out, 8);
            push_text(&mut out, s);
        },
        JudgeState::UnknownError => push_be32(&mut out, 9),
        JudgeState::LanguageNotFound => push_be32(&mut out, 10),
        JudgeState::TimeLimitExceed(id) => {
            push_be32(&mut out, 11);
            push_be128(&mut out, *id);
        },
        JudgeState::MemLimitExceed(id) => {
            push_be32(&mut out, 12);
            push_be128(&mut out, *id);
        },
        JudgeState::WrongAnswer(id, t, m) => {
            push_be32(&mut out, 13);
            push_be128(&mut out, *id);
            push_be64(&mut out, *t);
            push_be64(&mut out, *m);
        },
        JudgeState::LockedSlave => push_be32(&mut out, 14),
        JudgeState::UnlockedSlave => push_be32(&mut out, 15),
        JudgeState::JudgeNotFound => push_be32(&mut out, 16),
    }
    assert(out@ =~= state_bytes(*st));
    out
}

fn parse_text(p: &[u8]) -> (r: Option<String>)
    ensures
        match r {
            Some(s) => p@ == text_bytes(s@) && text_fits(s@),
            None => forall|cs: Seq<char>| text_fits(cs) ==> p@ != #[trigger] text_bytes(cs),
        },
{
    proof {
        assert forall|cs: Seq<char>| text_fits(cs) && p@ == #[trigger] text_bytes(cs) implies (
        be32_at(p@, 0) == encode_utf8(cs).len() && p@.subrange(4, p@.len() as int)
            == encode_utf8(cs)) by {
            let t = be32(encode_utf8(cs).len() as u32);
            lemma_be32_round_trip(encode_utf8(cs).len() as u32);
            assert(p@[0] == t[0] && p@[1] == t[1] && p@[2] == t[2] && p@[3] == t[3]);
            assert(p@.subrange(4, p@.len() as int) =~= encode_utf8(cs));
        }
    }
    if p.len() < 4 {
        return None;
    }
    let n = read_be32(p, 0) as usize;
    if p.len() - 4 != n {
        return None;
    }
    let body = copy_range(p, 4, p.len());
    match utf8_string(body.as_slice()) {
        None => {
            proof {
                assert forall|cs: Seq<char>| text_fits(cs) implies p@ != #[trigger] text_bytes(
                    cs,
                ) by {
                    vstd::utf8::encode_utf8_valid_utf8(cs);
                }
            }
            None
        },
        Some(s) => {
            proof {
                vstd::utf8::decode_utf8_encode_utf8(body@);
                lemma_be32_of_value(p@, 0);
                assert(p@ =~= text_bytes(s@));
            }
            Some(s)
        },
    }
}

fn parse_id(p: &[u8]) -> (r: Option<u128>)
    ensures
        match r {
            Some(id) => p@ == be128(id),
            None => forall|x: u128| p@ != #[trigger] be128(x),
        },
{
    if p.len() != 16 {
        return None;
    }
    proof {
        lemma_be128_of_value(p@, 0);
        assert(p@.subrange(0, 16) =~= p@);
    }
    Some(read_be128(p, 0))
}

fn parse_id_pair(p: &[u8]) -> (r: Option<(u128, u64, u64)>)
    ensures
        match r {
            Some((id, a, b)) => p@ == be128(id) + be64(a) + be64(b),
            None => forall|x: u128, a: u64, b: u64| p@ != #[trigger] (be128(x) + be64(a) + be64(b)),
        },
{
    if p.len() != 32 {
        return None;
    }
    let id = read_be128(p, 0);
    let a = read_be64(p, 16);
    let b = read_be64(p, 24);
    proof {
        lemma_be128_of_value(p@, 0);
        lemma_be64_of_value(p@, 16);
        lemma_be64_of_value(p@, 24);
        assert(p@ =~= be128(id) + be64(a) + be64(b));
    }
    Some((id, a, b))
}

fn parse_id_triple(p: &[u8]) -> (r: Option<(u128, u64, u64, u64)>)
    ensures
        match r {
            Some((id, a, b, c)) => p@ == be128(id) + be64(a) + be64(b) + be64(c),
            None => forall|x: u128, a: u64, b: u64, c: u64|
                p@ != #[trigger] (be128(x) + be64(a) + be64(b) + be64(c)),
        },
{
    if p.len() != 40 {
        return None;
    }
    let id = read_be128(p, 0);
    let a = read_be64(p, 16);
    let b = read_be64(p, 24);
    let c = read_be64(p, 32);
    proof {
        lemma_be128_of_value(p@, 0);
        lemma_be64_of_value(p@, 16);
        lemma_be64_of_value(p@, 24);
        lemma_be64_of_value(p@, 32);
        assert(p@ =~= be128(id) + be64(a) + be64(b) + be64(c));
    }
    Some((id, a, b, c))
}

fn parse_id_code(p: &[u8]) -> (r: Option<(u128, i32)>)
    ensures
        match r {
            Some((id, c)) => p@ == be128(id) + be32(c as u32),
            None => forall|x: u128, c: i32| p@ != #[trigger] (be128(x) + be32(c as u32)),
        },
{
    if p.len() != 20 {
        return None;
    }
    let id = read_be128(p, 0);
    let v = read_be32(p, 16);
    let c = v as i32;
    proof {
        lemma_be128_of_value(p@, 0);
        lemma_be32_of_value(p@, 16);
        assert(((v as i32) as u32) == v) by (bit_vector);
        assert(p@ =~= be128(id) + be32(c as u32));
    }
    Some((id, c))
}

/// The state that a tag and its encoded fields make, if they make one.
fn decode_payload(tag: u32, p: &[u8]) -> (r: Option<JudgeState>)
    ensures
        match r {
            Some(st) => tag_of(st) == tag && payload_bytes(st) == p@ && encodable(st),
            None => forall|st: JudgeState|
                encodable(st) && tag_of(st) == tag ==> payload_bytes(st) != p@,
        },
{
    let empty = p.len() == 0;
    assert(empty ==> p@ =~= Seq::<u8>::empty());
    if tag == 0 || tag == 9 || tag == 10 || tag == 14 || tag == 15 || tag == 16 {
        if !empty {
            return None;
        }
        if tag == 0 {
            Some(JudgeState::DoCompile)
        } else if tag == 9 {
            Some(JudgeState::UnknownError)
        } else if tag == 10 {
            Some(JudgeState::LanguageNotFound)
        } else if tag == 14 {
            Some(JudgeState::LockedSlave)
        } else if tag == 15 {
            Some(JudgeState::UnlockedSlave)
        } else {
            Some(JudgeState::JudgeNotFound)
        }
    } else if tag == 1 || tag == 4 || tag == 8 {
        match parse_text(p) {
            None => None,
            Some(s) => if tag == 1 {
                Some(JudgeState::CompleteCompile(s))
            } else if tag == 4 {
                Some(JudgeState::CompileError(s))
            } else {
                Some(JudgeState::GeneralError(s))
            },
        }
    } else if tag == 2 || tag == 13 {
        match parse_id_pair(p) {
            None => None,
            Some((id, t, m)) => if tag == 2 {
                Some(JudgeState::Accepted(id, t, m))
            } else {
                Some(JudgeState::WrongAnswer(id, t, m))
            },
        }
    } else if tag == 3 {
        match parse_id_triple(p) {
            None => None,
            Some((id, score, t, m)) => Some(JudgeState::Complete(id, score, t, m)),
        }
    } else if tag == 5 || tag == 6 {
        match parse_id_code(p) {
            None => None,
            Some((id, c)) => if tag == 5 {
                Some(JudgeState::RuntimeError(id, c))
            } else {
                Some(JudgeState::DiedOnSignal(id, c))
            },
        }
    } else if tag == 7 || tag == 11 || tag == 12 {
        match parse_id(p) {
            None => None,
            Some(id) => if tag == 7 {
                Some(JudgeState::InternalError(id))
            } else if tag == 11 {
                Some(JudgeState::TimeLimitExceed(id))
            } else {
                Some(JudgeState::MemLimitExceed(id))
            },
        }
    } else {
        None
    }
}

/// Reads the canonical bytes of a state. It fails with `GeneralError`
/// exactly on bytes that no state encodes to; the bytes of a state always
/// give back that state, every field intact.
pub fn decode_state(bytes: &[u8]) -> (r: Result<JudgeState, ProtocolError>)
    ensures
        match r {
            Ok(st) => state_bytes(st) == bytes@ && encodable(st),
            Err(e) => e == ProtocolError::GeneralError && forall|st: JudgeState|
                encodable(st) ==> state_bytes(st) != bytes@,
        },
        forall|st: JudgeState|
            encodable(st) && #[trigger] state_bytes(st) == bytes@ ==> (r matches Ok(st2)
                && same_state(st2, st)),
{
    proof {
        assert forall|st: JudgeState| #[trigger] state_bytes(st) == bytes@ implies (
        bytes@.len() >= 4 && be32_at(bytes@, 0) == tag_of(st) && bytes@.subrange(
            4,
            bytes@.len() as int,
        ) == payload_bytes(st)) by {
            lemma_state_bytes_split(st);
        }
    }
    if bytes.len() < 4 {
        return Err(ProtocolError::GeneralError);
    }
    let tag = read_be32(bytes, 0);
    let p = copy_range(bytes, 4, bytes.len());
    match decode_payload(tag, p.as_slice()) {
        None => Err(ProtocolError::GeneralError),
        Some(st) => {
            proof {
                lemma_be32_of_value(bytes@, 0);
                assert(bytes@ =~= state_bytes(st));
                assert forall|st1: JudgeState|
                    encodable(st1) && #[trigger] state_bytes(st1) == bytes@ implies same_state(
                    st,
                    st1,
                ) by {
                    lemma_state_bytes_injective(st, st1);
                }
            }
            Ok(st)
        },
    }
}

/// The canonical bytes of a response: the job id, then the state.
pub open spec fn response_bytes(uuid: u128, st: JudgeState) -> Seq<u8> {
    be128(uuid) + state_bytes(st)
}

impl JudgeResponseBody {
    pub fn bytes(&self) -> (r: Vec<u8>)
        requires
            encodable(self.result),
        ensures
            r@ == response_bytes(self.uuid, self.result),
    {
        let mut out: Vec<u8> = Vec::new();
        push_be128(&mut out, self.uuid);
        let st = encode_state(&self.result);
        append_bytes(&mut out, st.as_slice());
        out
    }

    /// Reads a response. It fails with `GeneralError` exactly on bytes that
    /// no response encodes to; a response's bytes give back its id and its
    /// state, every field intact.
    pub fn from_bytes(bytes: &[u8]) -> (r: Result<Self, ProtocolError>)
        ensures
            match r {
                Ok(b) => response_bytes(b.uuid, b.result) == bytes@ && encodable(b.result),
                Err(e) => e == ProtocolError::GeneralError && forall|id: u128, st: JudgeState|
                    encodable(st) ==> #[trigger] response_bytes(id, st) != bytes@,
            },
            forall|id: u128, st: JudgeState|
                encodable(st) && #[trigger] response_bytes(id, st) == bytes@ ==> (r matches Ok(b)
                    && b.uuid == id && same_state(b.result, st)),
    {
        proof {
            assert forall|id: u128, st: JudgeState| #[trigger]
                response_bytes(id, st) == bytes@ implies (bytes@.len() >= 16 && be128_at(bytes@, 0)
                == id && bytes@.subrange(16, bytes@.len() as int) == state_bytes(st)) by {
                lemma_be128_round_trip(id);
                let h = be128(id);
                assert(forall|i: int| 0 <= i < 16 ==> bytes@[i] == h[i]);
                assert(be128_at(bytes@, 0) == be128_at(h, 0));
                assert(bytes@.subrange(16, bytes@.len() as int) =~= state_bytes(st));
            }
        }
        if bytes.len() < 16 {
            return Err(ProtocolError::GeneralError);
        }
        let uuid = read_be128(bytes, 0);
        let rest = copy_range(bytes, 16, bytes.len());
        match decode_state(rest.as_slice()) {
            Err(e) => Err(e),
            Ok(result) => {
                proof {
                    lemma_be128_of_value(bytes@, 0);
                    assert(bytes@ =~= response_bytes(uuid, result));
                }
                Ok(JudgeResponseBody { uuid, result })
            },
        }
    }
}

/// A text read from the front of `s`, and what follows it.
pub open spec fn take_text(s: Seq<u8>) -> Option<(Seq<char>, Seq<u8>)> {
    match take_field(s) {
        Some((x, t)) => if valid_utf8(x) {
            Some((decode_utf8(x), t))
        } else {
            None
        },
        None => None,
    }
}

pub proof fn lemma_take_text(cs: Seq<char>, t: Seq<u8>)
    requires
        text_fits(cs),
    ensures
        take_text(text_bytes(cs) + t) == Some((cs, t)),
{
    assert(text_bytes(cs) == field_bytes(encode_utf8(cs)));
    lemma_take_field(encode_utf8(cs), t);
    vstd::utf8::encode_utf8_valid_utf8(cs);
    vstd::utf8::encode_utf8_decode_utf8(cs);
}

fn take_text_at(s: &[u8], at: usize) -> (r: Option<(String, usize)>)
    requires
        at <= s@.len(),
    ensures
        match take_text(s@.subrange(at as int, s@.len() as int)) {
            Some((x, t)) => r matches Some((v, next)) && v@ == x && at <= next <= s@.len()
                && s@.subrange(next as int, s@.len() as int) == t,
            None => r is None,
        },
{
    let (b, next) = match take_field_at(s, at) {
        Some(x) => x,
        None => return None,
    };
    match utf8_string(b.as_slice()) {
        Some(text) => Some((text, next)),
        None => None,
    }
}

fn push_text_field(out: &mut Vec<u8>, s: &String)
    requires
        text_fits(s@),
    ensures
        final(out)@ == old(out)@ + text_bytes(s@),
{
    push_text(out, s);
}

/// The parts of a sealed field.
pub open spec fn enc_view(m: EncMessage) -> (Seq<u8>, Seq<u8>) {
    (m.nonce@, m.ciphertext@)
}

pub open spec fn enc_view_fits(v: (Seq<u8>, Seq<u8>)) -> bool {
    enc_fits(v.0, v.1)
}

pub open spec fn enc_view_bytes(v: (Seq<u8>, Seq<u8>)) -> Seq<u8> {
    enc_bytes(v.0, v.1)
}

impl View for TestCaseUpdateBody {
    type V = (u128, u128, (Seq<u8>, Seq<u8>), (Seq<u8>, Seq<u8>));

    open spec fn view(&self) -> Self::V {
        (self.uuid, self.test_uuid, enc_view(self.stdin), enc_view(self.stdout))
    }
}

/// The canonical bytes of a test case update, in field order.
pub open spec fn test_case_bytes(v: (u128, u128, (Seq<u8>, Seq<u8>), (Seq<u8>, Seq<u8>))) -> Seq<u8> {
    be128(v.0) + (be128(v.1) + (enc_view_bytes(v.2) + enc_view_bytes(v.3)))
}

/// What reading exactly one test case update from `s` gives.
pub open spec fn test_case_decode_spec(s: Seq<u8>) -> Option<
    (u128, u128, (Seq<u8>, Seq<u8>), (Seq<u8>, Seq<u8>)),
> {
    match take_u128(s) {
        None => None,
        Some((u, r1)) => match take_u128(r1) {
            None => None,
            Some((tu, r2)) => match take_enc(r2) {
                None => None,
                Some((a, r3)) => match take_enc(r3) {
                    None => None,
                    Some((b, r4)) => if r4.len() == 0 {
                        Some((u, tu, a, b))
                    } else {
                        None
                    },
                },
            },
        },
    }
}

/// Reading a test case update's bytes gives back every field.
pub proof fn lemma_test_case_round_trip(v: (u128, u128, (Seq<u8>, Seq<u8>), (Seq<u8>, Seq<u8>)))
    requires
        enc_view_fits(v.2),
        enc_view_fits(v.3),
    ensures
        test_case_decode_spec(test_case_bytes(v)) == Some(v),
{
    let e = Seq::<u8>::empty();
    let r3 = enc_view_bytes(v.3);
    let r2 = enc_view_bytes(v.2) + r3;
    let r1 = be128(v.1) + r2;
    lemma_take_u128(v.0, r1);
    lemma_take_u128(v.1, r2);
    lemma_take_enc(v.2.0, v.2.1, r3);
    assert(r3 + e =~= r3);
    lemma_take_enc(v.3.0, v.3.1, e);
}

impl TestCaseUpdateBody {
    pub fn bytes(&self) -> (r: Vec<u8>)
        requires
            enc_view_fits(enc_view(self.stdin)),
            enc_view_fits(enc_view(self.stdout)),
        ensures
            r@ == test_case_bytes(self@),
    {
        let mut out: Vec<u8> = Vec::new();
        push_be128(&mut out, self.uuid);
        push_be128(&mut out, self.test_uuid);
        self.stdin.push_bytes(&mut out);
        self.stdout.push_bytes(&mut out);
        assert(out@ =~= test_case_bytes(self@));
        out
    }

    /// Reads exactly one update; fails with `GeneralError` on anything else.
    pub fn from_bytes(bytes: &[u8]) -> (r: Result<Self, ProtocolError>)
        ensures
            match test_case_decode_spec(bytes@) {
                Some(v) => r matches Ok(b) && b@ == v,
                None => r matches Err(e) && e == ProtocolError::GeneralError,
            },
    {
        assert(bytes@.subrange(0, bytes@.len() as int) =~= bytes@);
        let (uuid, a1) = match take_u128_at(bytes, 0) {
            Some(x) => x,
            None => return Err(ProtocolError::GeneralError),
        };
        let (test_uuid, a2) = match take_u128_at(bytes, a1) {
            Some(x) => x,
            None => return Err(ProtocolError::GeneralError),
        };
        let (stdin, a3) = match EncMessage::take_at(bytes, a2) {
            Some(x) => x,
            None => return Err(ProtocolError::GeneralError),
        };
        let (stdout, a4) = match EncMessage::take_at(bytes, a3) {
            Some(x) => x,
            None => return Err(ProtocolError::GeneralError),
        };
        if a4 != bytes.len() {
            return Err(ProtocolError::GeneralError);
        }
        Ok(TestCaseUpdateBody { uuid, test_uuid, stdin, stdout })
    }
}

impl View for JudgeRequestBody {
    type V = (u128, u128, u128, (Seq<u8>, Seq<u8>), (Seq<u8>, Seq<u8>), u64, u64);

    open spec fn view(&self) -> Self::V {
        (
            self.uuid,
            self.main_lang,
            self.checker_lang,
            enc_view(self.checker_code),
            enc_view(self.main_code),
            self.time_limit,
            self.mem_limit,
        )
    }
}

/// The canonical bytes of a judge request, in field order.
pub open spec fn request_bytes(
    v: (u128, u128, u128, (Seq<u8>, Seq<u8>), (Seq<u8>, Seq<u8>), u64, u64),
) -> Seq<u8> {
    be128(v.0) + (be128(v.1) + (be128(v.2) + (enc_view_bytes(v.3) + (enc_view_bytes(v.4) + (
    be64(v.5) + be64(v.6))))))
}

/// What reading exactly one judge request from `s` gives.
pub open spec fn request_decode_spec(s: Seq<u8>) -> Option<
    (u128, u128, u128, (Seq<u8>, Seq<u8>), (Seq<u8>, Seq<u8>), u64, u64),
> {
    match take_u128(s) {
        None => None,
        Some((u, r1)) => match take_u128(r1) {
            None => None,
            Some((ml, r2)) => match take_u128(r2) {
                None => None,
                Some((cl, r3)) => match take_enc(r3) {
                    None => None,
                    Some((cc, r4)) => match take_enc(r4) {
                        None => None,
                        Some((mc, r5)) => match take_u64(r5) {
                            None => None,
                            Some((tl, r6)) => match take_u64(r6) {
                                None => None,
                                Some((mem, r7)) => if r7.len() == 0 {
                                    Some((u, ml, cl, cc, mc, tl, mem))
                                } else {
                                    None
                                },
                            },
                        },
                    },
                },
            },
        },
    }
}

/// Reading a judge request's bytes gives back every field.
pub proof fn lemma_request_round_trip(
    v: (u128, u128, u128, (Seq<u8>, Seq<u8>), (Seq<u8>, Seq<u8>), u64, u64),
)
    requires
        enc_view_fits(v.3),
        enc_view_fits(v.4),
    ensures
        request_decode_spec(request_bytes(v)) == Some(v),
{
    let e = Seq::<u8>::empty();
    let r6 = be64(v.6);
    let r5 = be64(v.5) + r6;
    let r4 = enc_view_bytes(v.4) + r5;
    let r3 = enc_view_bytes(v.3) + r4;
    let r2 = be128(v.2) + r3;
    let r1 = be128(v.1) + r2;
    lemma_take_u128(v.0, r1);
    lemma_take_u128(v.1, r2);
    lemma_take_u128(v.2, r3);
    lemma_take_enc(v.3.0, v.3.1, r4);
    lemma_take_enc(v.4.0, v.4.1, r5);
    lemma_take_u64(v.5, r6);
    assert(r6 + e =~= r6);
    lemma_take_u64(v.6, e);
}

impl JudgeRequestBody {
    pub fn bytes(&self) -> (r: Vec<u8>)
        requires
            enc_view_fits(enc_view(self.checker_code)),
            enc_view_fits(enc_view(self.main_code)),
        ensures
            r@ == request_bytes(self@),
    {
        let mut out: Vec<u8> = Vec::new();
        push_be128(&mut out, self.uuid);
        push_be128(&mut out, self.main_lang);
        push_be128(&mut out, self.checker_lang);
        self.checker_code.push_bytes(&mut out);
        self.main_code.push_bytes(&mut out);
        push_be64(&mut out, self.time_limit);
        push_be64(&mut out, self.mem_limit);
        assert(out@ =~= request_bytes(self@));
        out
    }

    /// Reads exactly one request; fails with `GeneralError` on anything else.
    pub fn from_bytes(bytes: &[u8]) -> (r: Result<Self, ProtocolError>)
        ensures
            match request_decode_spec(bytes@) {
                Some(v) => r matches Ok(b) && b@ == v,
                None => r matches Err(e) && e == ProtocolError::GeneralError,
            },
    {
        assert(bytes@.subrange(0, bytes@.len() as int) =~= bytes@);
        let (uuid, a1) = match take_u128_at(bytes, 0) {
            Some(x) => x,
            None => return Err(ProtocolError::GeneralError),
        };
        let (main_lang, a2) = match take_u128_at(bytes, a1) {
            Some(x) => x,
            None => return Err(ProtocolError::GeneralError),
        };
        let (checker_lang, a3) = match take_u128_at(bytes, a2) {
            Some(x) => x,
            None => return Err(ProtocolError::GeneralError),
        };
        let (checker_code, a4) = match EncMessage::take_at(bytes, a3) {
            Some(x) => x,
            None => return Err(ProtocolError::GeneralError),
        };
        let (main_code, a5) = match EncMessage::take_at(bytes, a4) {
            Some(x) => x,
            None => return Err(ProtocolError::GeneralError),
        };
        let (time_limit, a6) = match take_u64_at(bytes, a5) {
            Some(x) => x,
            None => return Err(ProtocolError::GeneralError),
        };
        let (mem_limit, a7) = match take_u64_at(bytes, a6) {
            Some(x) => x,
            None => return Err(ProtocolError::GeneralError),
        };
        if a7 != bytes.len() {
            return Err(ProtocolError::GeneralError);
        }
        Ok(
            JudgeRequestBody {
                uuid,
                main_lang,
                checker_lang,
                checker_code,
                main_code,
                time_limit,
                mem_limit,
            },
        )
    }
}

impl View for JudgeRequestBodyv2 {
    type V = (
        (u128, u128, u128, u128),
        ((Seq<u8>, Seq<u8>), (Seq<u8>, Seq<u8>), (Seq<u8>, Seq<u8>), (Seq<u8>, Seq<u8>)),
        (Seq<char>, Seq<char>),
        (u64, u64),
    );

    open spec fn view(&self) -> Self::V {
        (
            (self.uuid, self.main_lang, self.checker_lang, self.manager_lang),
            (
                enc_view(self.checker_code),
                enc_view(self.main_code),
                enc_view(self.manager_code),
                enc_view(self.graders),
            ),
            (self.main_path@, self.object_path@),
            (self.time_limit, self.mem_limit),
        )
    }
}

/// Whether every sealed field and path of a second-form request fits its
/// length field.
pub open spec fn request_v2_fits(
    v: (
        (u128, u128, u128, u128),
        ((Seq<u8>, Seq<u8>), (Seq<u8>, Seq<u8>), (Seq<u8>, Seq<u8>), (Seq<u8>, Seq<u8>)),
        (Seq<char>, Seq<char>),
        (u64, u64),
    ),
) -> bool {
    &&& enc_view_fits(v.1.0)
    &&& enc_view_fits(v.1.1)
    &&& enc_view_fits(v.1.2)
    &&& enc_view_fits(v.1.3)
    &&& text_fits(v.2.0)
    &&& text_fits(v.2.1)
}

/// The canonical bytes of a second-form judge request, in field order.
pub open spec fn request_v2_bytes(
    v: (
        (u128, u128, u128, u128),
        ((Seq<u8>, Seq<u8>), (Seq<u8>, Seq<u8>), (Seq<u8>, Seq<u8>), (Seq<u8>, Seq<u8>)),
        (Seq<char>, Seq<char>),
        (u64, u64),
    ),
) -> Seq<u8> {
    be128(v.0.0) + (be128(v.0.1) + (be128(v.0.2) + (be128(v.0.3) + (enc_view_bytes(v.1.0) + (
    enc_view_bytes(v.1.1) + (enc_view_bytes(v.1.2) + (enc_view_bytes(v.1.3) + (text_bytes(v.2.0)
        + (text_bytes(v.2.1) + (be64(v.3.0) + be64(v.3.1)))))))))))
}

/// What reading exactly one second-form judge request from `s` gives.
pub open spec fn request_v2_decode_spec(s: Seq<u8>) -> Option<
    (
        (u128, u128, u128, u128),
        ((Seq<u8>, Seq<u8>), (Seq<u8>, Seq<u8>), (Seq<u8>, Seq<u8>), (Seq<u8>, Seq<u8>)),
        (Seq<char>, Seq<char>),
        (u64, u64),
    ),
> {
    match take_u128(s) {
        None => None,
        Some((u, r1)) => match take_u128(r1) {
            None => None,
            Some((ml, r2)) => match take_u128(r2) {
                None => None,
                Some((cl, r3)) => match take_u128(r3) {
                    None => None,
                    Some((gl, r4)) => match take_enc(r4) {
                        None => None,
                        Some((cc, r5)) => match take_enc(r5) {
                            None => None,
                            Some((mc, r6)) => match take_enc(r6) {
                                None => None,
                                Some((gc, r7)) => match take_enc(r7) {
                                    None => None,
                                    Some((gr, r8)) => match take_text(r8) {
                                        None => None,
                                        Some((mp, r9)) => match take_text(r9) {
                                            None => None,
                                            Some((op, r10)) => match take_u64(r10) {
                                                None => None,
                                                Some((tl, r11)) => match take_u64(r11) {
                                                    None => None,
                                                    Some((mem, r12)) => if r12.len() == 0 {
                                                        Some(
                                                            (
                                                                (u, ml, cl, gl),
                                                                (cc, mc, gc, gr),
                                                                (mp, op),
                                                                (tl, mem),
                                                            ),
                                                        )
                                                    } else {
                                                        None
                                                    },
                                                },
                                            },
                                        },
                                    },
                                },
                            },
                        },
                    },
                },
            },
        },
    }
}

/// Reading a second-form judge request's bytes gives back every field.
#[verifier::rlimit(100)]
pub proof fn lemma_request_v2_round_trip(
    v: (
        (u128, u128, u128, u128),
        ((Seq<u8>, Seq<u8>), (Seq<u8>, Seq<u8>), (Seq<u8>, Seq<u8>), (Seq<u8>, Seq<u8>)),
        (Seq<char>, Seq<char>),
        (u64, u64),
    ),
)
    requires
        request_v2_fits(v),
    ensures
        request_v2_decode_spec(request_v2_bytes(v)) == Some(v),
{
    let e = Seq::<u8>::empty();
    let r11 = be64(v.3.1);
    let r10 = be64(v.3.0) + r11;
    let r9 = text_bytes(v.2.1) + r10;
    let r8 = text_bytes(v.2.0) + r9;
    let r7 = enc_view_bytes(v.1.3) + r8;
    let r6 = enc_view_bytes(v.1.2) + r7;
    let r5 = enc_view_bytes(v.1.1) + r6;
    let r4 = enc_view_bytes(v.1.0) + r5;
    let r3 = be128(v.0.3) + r4;
    let r2 = be128(v.0.2) + r3;
    let r1 = be128(v.0.1) + r2;
    lemma_take_u128(v.0.0, r1);
    lemma_take_u128(v.0.1, r2);
    lemma_take_u128(v.0.2, r3);
    lemma_take_u128(v.0.3, r4);
    lemma_take_enc(v.1.0.0, v.1.0.1, r5);
    lemma_take_enc(v.1.1.0, v.1.1.1, r6);
    lemma_take_enc(v.1.2.0, v.1.2.1, r7);
    lemma_take_enc(v.1.3.0, v.1.3.1, r8);
    lemma_take_text(v.2.0, r9);
    lemma_take_text(v.2.1, r10);
    lemma_take_u64(v.3.0, r11);
    assert(r11 + e =~= r11);
    lemma_take_u64(v.3.1, e);
}

impl JudgeRequestBodyv2 {
    pub fn bytes(&self) -> (r: Vec<u8>)
        requires
            request_v2_fits(self@),
        ensures
            r@ == request_v2_bytes(self@),
    {
        let ghost v = self@;
        let mut tail: Vec<u8> = Vec::new();
        push_text_field(&mut tail, &self.main_path);
        push_text_field(&mut tail, &self.object_path);
        push_be64(&mut tail, self.time_limit);
        push_be64(&mut tail, self.mem_limit);
        let ghost t = text_bytes(v.2.0) + (text_bytes(v.2.1) + (be64(v.3.0) + be64(v.3.1)));
        assert(tail@ =~= t);
        let mut mid: Vec<u8> = Vec::new();
        self.checker_code.push_bytes(&mut mid);
        self.main_code.push_bytes(&mut mid);
        self.manager_code.push_bytes(&mut mid);
        self.graders.push_bytes(&mut mid);
        append_bytes(&mut mid, tail.as_slice());
        let ghost m = enc_view_bytes(v.1.0) + (enc_view_bytes(v.1.1) + (enc_view_bytes(v.1.2) + (
        enc_view_bytes(v.1.3) + t)));
        assert(mid@ =~= m);
        let mut out: Vec<u8> = Vec::new();
        push_be128(&mut out, self.uuid);
        push_be128(&mut out, self.main_lang);
        push_be128(&mut out, self.checker_lang);
        push_be128(&mut out, self.manager_lang);
        append_bytes(&mut out, mid.as_slice());
        assert(out@ =~= be128(v.0.0) + (be128(v.0.1) + (be128(v.0.2) + (be128(v.0.3) + m))));
        out
    }

    /// Reads exactly one request; fails with `GeneralError` on anything else.
    #[verifier::rlimit(100)]
    pub fn from_bytes(bytes: &[u8]) -> (r: Result<Self, ProtocolError>)
        ensures
            match request_v2_decode_spec(bytes@) {
                Some(v) => r matches Ok(b) && b@ == v,
                None => r matches Err(e) && e == ProtocolError::GeneralError,
            },
    {
        assert(bytes@.subrange(0, bytes@.len() as int) =~= bytes@);
        let (uuid, a1) = match take_u128_at(bytes, 0) {
            Some(x) => x,
            None => return Err(ProtocolError::GeneralError),
        };
        let (main_lang, a2) = match take_u128_at(bytes, a1) {
            Some(x) => x,
            None => return Err(ProtocolError::GeneralError),
        };
        let (checker_lang, a3) = match take_u128_at(bytes, a2) {
            Some(x) => x,
            None => return Err(ProtocolError::GeneralError),
        };
        let (manager_lang, a4) = match take_u128_at(bytes, a3) {
            Some(x) => x,
            None => return Err(ProtocolError::GeneralError),
        };
        let (checker_code, a5) = match EncMessage::take_at(bytes, a4) {
            Some(x) => x,
            None => return Err(ProtocolError::GeneralError),
        };
        let (main_code, a6) = match EncMessage::take_at(bytes, a5) {
            Some(x) => x,
            None => return Err(ProtocolError::GeneralError),
        };
        let (manager_code, a7) = match EncMessage::take_at(bytes, a6) {
            Some(x) => x,
            None => return Err(ProtocolError::GeneralError),
        };
        let (graders, a8) = match EncMessage::take_at(bytes, a7) {
            Some(x) => x,
            None => return Err(ProtocolError::GeneralError),
        };
        let (main_path, a9) = match take_text_at(bytes, a8) {
            Some(x) => x,
            None => return Err(ProtocolError::GeneralError),
        };
        let (object_path, a10) = match take_text_at(bytes, a9) {
            Some(x) => x,
            None => return Err(ProtocolError::GeneralError),
        };
        let (time_limit, a11) = match take_u64_at(bytes, a10) {
            Some(x) => x,
            None => return Err(ProtocolError::GeneralError),
        };
        let (mem_limit, a12) = match take_u64_at(bytes, a11) {
            Some(x) => x,
            None => return Err(ProtocolError::GeneralError),
        };
        if a12 != bytes.len() {
            return Err(ProtocolError::GeneralError);
        }
        Ok(
            JudgeRequestBodyv2 {
                uuid,
                main_lang,
                checker_lang,
                manager_lang,
                checker_code,
                main_code,
                manager_code,
                graders,
                main_path,
                object_path,
                time_limit,
                mem_limit,
            },
        )
    }
}

} // verus!
