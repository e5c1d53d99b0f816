//! Command registry and packet framing.
//!
//! A frame is `magic | command | length` (three big-endian `u32`), then
//! `length` body bytes, then the integrity digest of everything before it.
use vstd::prelude::*;
use crate::codec::{
    be32, be32_at, digest, digest_of, lemma_digest_len, lemma_be32_of_value, lemma_be32_round_trip,
    lemma_digest_detects_byte_change, copy_range, push_be32, read_be32,
};
use crate::constants::{DIGEST_SIZE, HEADER_SIZE, MAGIC, MAX_BODY_SIZE};
use crate::error::ProtocolError;

verus! {

/// Operation codes that select how a packet's body is read.
#[derive(Clone, Copy, Debug, PartialEq, Eq, Structural)]
pub enum Command {
    Handshake,
    // Client
    VerifyToken,
    GetLogin,
    ReqJudge,
    ReqJudgev2,
    GetJudgeStateUpdate,
    // Server
    ReqVerifyToken,
    ReqLogin,
    GetJudge,
    GetJudgev2,
    TestCaseUpdate,
    TestCaseEnd,
    // General
    Unknown,
}

impl Command {
    /// The wire code of the command.
    pub open spec fn spec_code(self) -> u32 {
        match self {
            Command::Handshake => 0x0000,
            Command::VerifyToken => 0x0001,
            Command::GetLogin => 0x0002,
            Command::ReqJudge => 0x0003,
            Command::ReqJudgev2 => 0x0F03,
            Command::GetJudgeStateUpdate => 0x0004,
            Command::ReqVerifyToken => 0xF001,
            Command::ReqLogin => 0xF002,
            Command::GetJudge => 0xF003,
            Command::GetJudgev2 => 0xFF03,
            Command::TestCaseUpdate => 0xF004,
            Command::TestCaseEnd => 0xF005,
            Command::Unknown => 0xFFFF,
        }
    }

    /// The command that a wire code names, if any.
    pub open spec fn spec_from_code(code: u32) -> Option<Command> {
        if code == 0x0000 {
            Some(Command::Handshake)
        } else if code == 0x0001 {
            Some(Command::VerifyToken)
        } else if code == 0x0002 {
            Some(Command::GetLogin)
        } else if code == 0x0003 {
            Some(Command::ReqJudge)
        } else if code == 0x0F03 {
            Some(Command::ReqJudgev2)
        } else if code == 0x0004 {
            Some(Command::GetJudgeStateUpdate)
        } else if code == 0xF001 {
            Some(Command::ReqVerifyToken)
        } else if code == 0xF002 {
            Some(Command::ReqLogin)
        } else if code == 0xF003 {
            Some(Command::GetJudge)
        } else if code == 0xFF03 {
            Some(Command::GetJudgev2)
        } else if code == 0xF004 {
            Some(Command::TestCaseUpdate)
        } else if code == 0xF005 {
            Some(Command::TestCaseEnd)
        } else if code == 0xFFFF {
            Some(Command::Unknown)
        } else {
            None
        }
    }

    pub fn code(&self) -> (r: u32)
        ensures
            r == self.spec_code(),
    {
        match self {
            Command::Handshake => 0x0000,
            Command::VerifyToken => 0x0001,
            Command::GetLogin => 0x0002,
            Command::ReqJudge => 0x0003,
            Command::ReqJudgev2 => 0x0F03,
            Command::GetJudgeStateUpdate => 0x0004,
            Command::ReqVerifyToken => 0xF001,
            Command::ReqLogin => 0xF002,
            Command::GetJudge => 0xF003,
            Command::GetJudgev2 => 0xFF03,
            Command::TestCaseUpdate => 0xF004,
            Command::TestCaseEnd => 0xF005,
            Command::Unknown => 0xFFFF,
        }
    }

    pub fn from_code(code: u32) -> (r: Option<Command>)
        ensures
            r == Self::spec_from_code(code),
    {
        if code == 0x0000 {
            Some(Command::Handshake)
        } else if code == 0x0001 {
            Some(Command::VerifyToken)
        } else if code == 0x0002 {
            Some(Command::GetLogin)
        } else if code == 0x0003 {
            Some(Command::ReqJudge)
        } else if code == 0x0F03 {
            Some(Command::ReqJudgev2)
        } else if code == 0x0004 {
            Some(Command::GetJudgeStateUpdate)
        } else if code == 0xF001 {
            Some(Command::ReqVerifyToken)
        } else if code == 0xF002 {
            Some(Command::ReqLogin)
        } else if code == 0xF003 {
            Some(Command::GetJudge)
        } else if code == 0xFF03 {
            Some(Command::GetJudgev2)
        } else if code == 0xF004 {
            Some(Command::TestCaseUpdate)
        } else if code == 0xF005 {
            Some(Command::TestCaseEnd)
        } else if code == 0xFFFF {
            Some(Command::Unknown)
        } else {
            None
        }
    }

    /// Whether the command is one a client sends.
    pub open spec fn spec_is_client(self) -> bool {
        match self {
            Command::Handshake | Command::VerifyToken | Command::GetLogin | Command::ReqJudge
            | Command::ReqJudgev2 | Command::GetJudgeStateUpdate => true,
            _ => false,
        }
    }

    /// Whether the command is one a server sends.
    pub open spec fn spec_is_server(self) -> bool {
        match self {
            Command::ReqVerifyToken | Command::ReqLogin | Command::GetJudge | Command::GetJudgev2
            | Command::TestCaseUpdate | Command::TestCaseEnd => true,
            _ => false,
        }
    }
}

/// Every command's code names that command.
pub proof fn lemma_code_round_trip(c: Command)
    ensures
        Command::spec_from_code(c.spec_code()) == Some(c),
{
}

/// The bytes of a header with `magic` that declares `length` body bytes.
pub open spec fn header_with(magic: u32, command: Command, length: u32) -> Seq<u8> {
    be32(magic) + be32(command.spec_code()) + be32(length)
}

/// The bytes of a protocol header that declares `length` body bytes.
pub open spec fn header_bytes(command: Command, length: u32) -> Seq<u8> {
    header_with(MAGIC, command, length)
}

/// The frame that carries `body` under `command` behind `magic`.
pub open spec fn frame_with(magic: u32, command: Command, body: Seq<u8>) -> Seq<u8> {
    let covered = header_with(magic, command, body.len() as u32) + body;
    covered + digest_of(covered)
}

/// The protocol frame that carries `body` under `command`.
pub open spec fn frame_of(command: Command, body: Seq<u8>) -> Seq<u8> {
    frame_with(MAGIC, command, body)
}

/// What decoding `b` as exactly one frame gives: its command and body, or
/// the first check that fails, in the order magic, declared length, size,
/// digest, command.
pub open spec fn decode_spec(b: Seq<u8>) -> Result<(Command, Seq<u8>), ProtocolError> {
    if b.len() < HEADER_SIZE {
        Err(ProtocolError::MalformedHeader)
    } else if be32_at(b, 0) != MAGIC {
        Err(ProtocolError::BadMagic)
    } else {
        let len = be32_at(b, 8) as int;
        let end = HEADER_SIZE + len;
        if len > MAX_BODY_SIZE {
            Err(ProtocolError::OversizedLength)
        } else if b.len() < end + DIGEST_SIZE {
            Err(ProtocolError::Truncated)
        } else if b.len() > end + DIGEST_SIZE {
            Err(ProtocolError::TrailingBytes)
        } else if b.subrange(end, b.len() as int) != digest_of(b.subrange(0, end)) {
            Err(ProtocolError::IntegrityFailure)
        } else {
            match Command::spec_from_code(be32_at(b, 4)) {
                None => Err(ProtocolError::UnknownCommand),
                Some(c) => Ok((c, b.subrange(HEADER_SIZE as int, end))),
            }
        }
    }
}

/// What reading a header from `b` gives: the full length of its frame, or
/// the first check that fails.
pub open spec fn frame_len_spec(b: Seq<u8>) -> Result<usize, ProtocolError> {
    if b.len() < HEADER_SIZE {
        Err(ProtocolError::MalformedHeader)
    } else if be32_at(b, 0) != MAGIC {
        Err(ProtocolError::BadMagic)
    } else if be32_at(b, 8) > MAX_BODY_SIZE {
        Err(ProtocolError::OversizedLength)
    } else {
        Ok((HEADER_SIZE + be32_at(b, 8) + DIGEST_SIZE) as usize)
    }
}

#[derive(Clone, Copy, Debug, PartialEq, Eq, Structural)]
pub struct PacketHeader {
    pub magic: u32,
    pub command: Command,
}

impl PacketHeader {
    pub fn check_magic(&self) -> (r: bool)
        ensures
            r == (self.magic == MAGIC),
    {
        self.magic == MAGIC
    }
}

#[derive(Clone, Debug)]
pub struct Packet {
    pub header: PacketHeader,
    pub body: Vec<u8>,
}

impl Packet {
    pub fn make_packet(command: Command, body: Vec<u8>) -> (r: Self)
        ensures
            r.header.command == command,
            r.header.magic == MAGIC,
            r.body@ == body@,
    {
        Self { header: PacketHeader { magic: MAGIC, command }, body }
    }

    /// The packet as one frame on the wire, behind the header's own magic:
    /// a packet whose magic is wrong gives a frame that `decode` refuses.
    pub fn serialize(&self) -> (r: Vec<u8>)
        requires
            self.body@.len() <= MAX_BODY_SIZE,
        ensures
            r@ == frame_with(self.header.magic, self.header.command, self.body@),
    {
        let mut out: Vec<u8> = Vec::new();
        push_be32(&mut out, self.header.magic);
        push_be32(&mut out, self.header.command.code());
        push_be32(&mut out, self.body.len() as u32);
        let mut i: usize = 0;
        while i < self.body.len()
            invariant
                i <= self.body@.len(),
                out@ == header_with(self.header.magic, self.header.command, self.body@.len() as u32)
                    + self.body@.take(i as int),
            decreases self.body@.len() - i,
        {
            out.push(self.body[i]);
            i = i + 1;
            proof {
                assert(out@ =~= header_with(self.header.magic, self.header.command, self.body@.len() as u32)
                    + self.body@.take(i as int));
            }
        }
        assert(self.body@.take(self.body@.len() as int) =~= self.body@);
        let d = digest(out.as_slice(), out.len());
        assert(out@.take(out@.len() as int) =~= out@);
        let mut j: usize = 0;
        let ghost covered = out@;
        while j < d.len()
            invariant
                j <= d@.len(),
                d@ == digest_of(covered),
                out@ == covered + d@.take(j as int),
            decreases d@.len() - j,
        {
            out.push(d[j]);
            j = j + 1;
            proof {
                assert(out@ =~= covered + d@.take(j as int));
            }
        }
        assert(d@.take(d@.len() as int) =~= d@);
        out
    }
}

/// Frames `body` under `command`, unless the body is longer than a frame
/// may declare.
pub fn encode(command: Command, body: &[u8]) -> (r: Result<Vec<u8>, ProtocolError>)
    ensures
        body@.len() > MAX_BODY_SIZE ==> r == Err::<Vec<u8>, ProtocolError>(
            ProtocolError::OversizedLength,
        ),
        body@.len() <= MAX_BODY_SIZE ==> (r matches Ok(v) && v@ == frame_of(command, body@)),
{
    if body.len() > MAX_BODY_SIZE as usize {
        return Err(ProtocolError::OversizedLength);
    }
    let packet = Packet::make_packet(command, copy_range(body, 0, body.len()));
    assert(body@.subrange(0, body@.len() as int) =~= body@);
    Ok(packet.serialize())
}

/// Reads a header and gives the full length of the frame it opens. The magic
/// and the declared length are checked before anything else is read.
pub fn frame_len(header: &[u8]) -> (r: Result<usize, ProtocolError>)
    ensures
        r == frame_len_spec(header@),
{
    if header.len() < HEADER_SIZE {
        return Err(ProtocolError::MalformedHeader);
    }
    if read_be32(header, 0) != MAGIC {
        return Err(ProtocolError::BadMagic);
    }
    let len = read_be32(header, 8);
    if len > MAX_BODY_SIZE {
        return Err(ProtocolError::OversizedLength);
    }
    Ok(HEADER_SIZE + len as usize + DIGEST_SIZE)
}

/// Decodes `bytes` as exactly one frame.
pub fn decode(bytes: &[u8]) -> (r: Result<Packet, ProtocolError>)
    ensures
        match decode_spec(bytes@) {
            Ok((c, body)) => r matches Ok(p) && p.header.command == c && p.body@ == body
                && p.header.magic == MAGIC,
            Err(e) => r matches Err(e2) && e2 == e,
        },
{
    let total = match frame_len(bytes) {
        Ok(n) => n,
        Err(e) => return Err(e),
    };
    let len = read_be32(bytes, 8) as usize;
    let end = HEADER_SIZE + len;
    if bytes.len() < total {
        return Err(ProtocolError::Truncated);
    }
    if bytes.len() > total {
        return Err(ProtocolError::TrailingBytes);
    }
    let expected = digest(bytes, end);
    assert(bytes@.take(end as int) =~= bytes@.subrange(0, end as int));
    let mut i: usize = 0;
    while i < DIGEST_SIZE
        invariant
            i <= DIGEST_SIZE,
            bytes@.len() == end + DIGEST_SIZE,
            bytes@.len() >= HEADER_SIZE,
            be32_at(bytes@, 0) == MAGIC,
            len == be32_at(bytes@, 8),
            len <= MAX_BODY_SIZE,
            end == HEADER_SIZE + len,
            expected@ == digest_of(bytes@.subrange(0, end as int)),
            expected@.len() == DIGEST_SIZE,
            forall|k: int| 0 <= k < i ==> bytes@[end + k] == expected@[k],
        decreases DIGEST_SIZE - i,
    {
        if bytes[end + i] != expected[i] {
            assert(bytes@.subrange(end as int, bytes@.len() as int)[i as int] != expected@[i as int]);
            assert(bytes@.subrange(end as int, bytes@.len() as int) != expected@);
            return Err(ProtocolError::IntegrityFailure);
        }
        i = i + 1;
    }
    assert(bytes@.subrange(end as int, bytes@.len() as int) =~= expected@);
    match Command::from_code(read_be32(bytes, 4)) {
        None => Err(ProtocolError::UnknownCommand),
        Some(c) => Ok(Packet::make_packet(c, copy_range(bytes, HEADER_SIZE, end))),
    }
}

proof fn lemma_header_fields(h: Seq<u8>, f: Seq<u8>, magic: u32, code: u32, len: u32)
    requires
        h == be32(magic) + be32(code) + be32(len),
        f.len() >= 12,
        f.subrange(0, 12) == h,
    ensures
        be32_at(f, 0) == magic,
        be32_at(f, 4) == code,
        be32_at(f, 8) == len,
{
    lemma_be32_round_trip(magic);
    lemma_be32_round_trip(code);
    lemma_be32_round_trip(len);
    let m = be32(magic);
    let c = be32(code);
    let l = be32(len);
    assert(h[0] == m[0] && h[1] == m[1] && h[2] == m[2] && h[3] == m[3]);
    assert(h[4] == c[0] && h[5] == c[1] && h[6] == c[2] && h[7] == c[3]);
    assert(h[8] == l[0] && h[9] == l[1] && h[10] == l[2] && h[11] == l[3]);
    assert(forall|i: int| 0 <= i < 12 ==> f[i] == f.subrange(0, 12)[i]);
}

#[verifier::rlimit(40)]
proof fn lemma_frame_fields(command: Command, body: Seq<u8>)
    requires
        body.len() <= MAX_BODY_SIZE,
    ensures
        ({
            let f = frame_of(command, body);
            let end = HEADER_SIZE + body.len();
            let covered = header_bytes(command, body.len() as u32) + body;
            &&& f.len() == end + DIGEST_SIZE
            &&& be32_at(f, 0) == MAGIC
            &&& be32_at(f, 4) == command.spec_code()
            &&& be32_at(f, 8) == body.len()
            &&& f.subrange(0, end) == covered
            &&& f.subrange(HEADER_SIZE as int, end) == body
            &&& f.subrange(end, f.len() as int) == digest_of(covered)
        }),
{
    let f = frame_of(command, body);
    let end = HEADER_SIZE + body.len();
    let h = header_bytes(command, body.len() as u32);
    let covered = h + body;
    lemma_digest_len(covered);
    assert(f.subrange(0, end) =~= covered);
    assert(f.subrange(0, 12) =~= h);
    lemma_header_fields(h, f, MAGIC, command.spec_code(), body.len() as u32);
    assert(f.subrange(HEADER_SIZE as int, end) =~= body);
    assert(f.subrange(end, f.len() as int) =~= digest_of(covered));
}

/// Decoding the frame of a command and a body gives back that command and
/// that body.
pub proof fn lemma_decode_encode(command: Command, body: Seq<u8>)
    requires
        body.len() <= MAX_BODY_SIZE,
    ensures
        decode_spec(frame_of(command, body)) == Ok::<(Command, Seq<u8>), ProtocolError>(
            (command, body),
        ),
{
    lemma_frame_fields(command, body);
    lemma_code_round_trip(command);
}

/// Changing any one byte of a frame makes it fail to decode. Outside the
/// length field the failure is a bad magic or an integrity failure; a changed
/// length field makes the frame too long, too short or oversized instead.
pub proof fn lemma_single_byte_change_rejected(command: Command, body: Seq<u8>, k: int, v: u8)
    requires
        body.len() <= MAX_BODY_SIZE,
        0 <= k < frame_of(command, body).len(),
        v != frame_of(command, body)[k],
    ensures
        decode_spec(frame_of(command, body).update(k, v)) is Err,
        (k < 8 || k >= 12) ==> (decode_spec(frame_of(command, body).update(k, v)) == Err::<
            (Command, Seq<u8>),
            ProtocolError,
        >(ProtocolError::BadMagic) || decode_spec(frame_of(command, body).update(k, v)) == Err::<
            (Command, Seq<u8>),
            ProtocolError,
        >(ProtocolError::IntegrityFailure)),
{
    let f = frame_of(command, body);
    let t = f.update(k, v);
    let end = HEADER_SIZE + body.len();
    let covered = header_bytes(command, body.len() as u32) + body;
    lemma_frame_fields(command, body);
    if k < 4 {
        lemma_be32_of_value(t, 0);
        lemma_be32_of_value(f, 0);
        if be32_at(t, 0) == MAGIC {
            assert(t.subrange(0, 4)[k] != f.subrange(0, 4)[k]);
        }
    } else if k < 8 {
        assert(be32_at(t, 0) == be32_at(f, 0));
        assert(be32_at(t, 8) == be32_at(f, 8));
        assert(t.subrange(0, end) =~= covered.update(k, v));
        assert(t.subrange(end, t.len() as int) =~= f.subrange(end, f.len() as int));
        lemma_digest_detects_byte_change(covered, k, v);
    } else if k < 12 {
        assert(be32_at(t, 0) == be32_at(f, 0));
        lemma_be32_of_value(t, 8);
        lemma_be32_of_value(f, 8);
        if be32_at(t, 8) == be32_at(f, 8) {
            assert(t.subrange(8, 12)[k - 8] != f.subrange(8, 12)[k - 8]);
        }
    } else if k < end {
        assert(be32_at(t, 0) == be32_at(f, 0));
        assert(be32_at(t, 8) == be32_at(f, 8));
        assert(t.subrange(0, end) =~= covered.update(k, v));
        assert(t.subrange(end, t.len() as int) =~= f.subrange(end, f.len() as int));
        lemma_digest_detects_byte_change(covered, k, v);
    } else {
        assert(be32_at(t, 0) == be32_at(f, 0));
        assert(be32_at(t, 8) == be32_at(f, 8));
        assert(t.subrange(0, end) =~= covered);
        assert(t.subrange(end, t.len() as int)[k - end] != f.subrange(end, f.len() as int)[k
            - end]);
    }
}

/// Different packets give different frames: the magic, the command and the
/// body can all be read back from the bytes.
pub proof fn lemma_frame_injective(
    m1: u32,
    c1: Command,
    b1: Seq<u8>,
    m2: u32,
    c2: Command,
    b2: Seq<u8>,
)
    requires
        b1.len() <= MAX_BODY_SIZE,
        b2.len() <= MAX_BODY_SIZE,
        frame_with(m1, c1, b1) == frame_with(m2, c2, b2),
    ensures
        m1 == m2,
        c1 == c2,
        b1 == b2,
{
    let f = frame_with(m1, c1, b1);
    let g = frame_with(m2, c2, b2);
    let h1 = header_with(m1, c1, b1.len() as u32);
    let h2 = header_with(m2, c2, b2.len() as u32);
    lemma_digest_len(h1 + b1);
    lemma_digest_len(h2 + b2);
    assert(f.subrange(0, 12) =~= h1);
    assert(g.subrange(0, 12) =~= h2);
    lemma_header_fields(h1, f, m1, c1.spec_code(), b1.len() as u32);
    lemma_header_fields(h2, g, m2, c2.spec_code(), b2.len() as u32);
    lemma_code_round_trip(c1);
    lemma_code_round_trip(c2);
    assert(f.subrange(12, 12 + b1.len() as int) =~= b1);
    assert(g.subrange(12, 12 + b2.len() as int) =~= b2);
}

} // verus!
