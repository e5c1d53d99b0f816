//! The handshake that authenticates a worker and agrees a session key, the
//! table of live sessions, and the envelope that binds each later message to
//! its session.
use vstd::prelude::*;
use crate::codec::{
    be128, be128_at, be32, be32_at, bytes_eq, copy_range, lemma_be128_round_trip,
    lemma_be32_round_trip, append_bytes, push_be128, push_be32, read_be128, read_be32,
};
use crate::codec::{
    field_bytes, lemma_take_byte, lemma_take_field, lemma_take_u128, lemma_take_u32, push_field,
    take_byte, take_byte_at, take_field, take_field_at, take_u128, take_u128_at, take_u32,
    take_u32_at,
};
use crate::error::ProtocolError;
use crate::security::{expand_key, hkdf_sha3_key, seals, EncMessage};

verus! {

/// The compressed SEC1 encoding of the secp256k1 public key of a secret
/// scalar given as big-endian bytes, if those bytes are a valid secret.
pub uninterp spec fn sec1_public_key(secret: Seq<u8>) -> Option<Seq<u8>>;

/// The x-coordinate of the secp256k1 Diffie-Hellman point of a secret scalar
/// and a SEC1-encoded public key, if both are valid.
pub uninterp spec fn ecdh_shared(secret: Seq<u8>, public: Seq<u8>) -> Option<Seq<u8>>;

/// Relies on `k256::SecretKey::random` with `rand::thread_rng`: a secret
/// scalar, nonzero and below the group order, as 32 big-endian bytes, so
/// that it always has a public key.
#[verifier::external_body]
fn generate_secret() -> (r: Vec<u8>)
    ensures
        r@.len() == 32,
        sec1_public_key(r@) is Some,
{
    k256::SecretKey::random(&mut rand::thread_rng()).to_bytes().to_vec()
}

/// Relies on `k256::SecretKey::from_slice` and `PublicKey::to_sec1_bytes`:
/// the public key of a secret given as bytes.
#[verifier::external_body]
fn public_key_of(secret: &[u8]) -> (r: Option<Vec<u8>>)
    ensures
        match r {
            Some(p) => sec1_public_key(secret@) == Some(p@),
            None => sec1_public_key(secret@) is None,
        },
{
    match k256::SecretKey::from_slice(secret) {
        Ok(k) => Some(k.public_key().to_sec1_bytes().to_vec()),
        Err(_) => None,
    }
}

/// Whether `p` is the encoded public key of some secret.
pub open spec fn is_public_key(p: Seq<u8>) -> bool {
    exists|c: Seq<u8>| #[trigger] sec1_public_key(c) == Some(p)
}

/// Relies on `k256::ecdh::diffie_hellman`: the 32-byte x-coordinate of the
/// shared point, after the secret and the public key are parsed. Both parse
/// whenever the secret has a public key and the public key is one that
/// `to_sec1_bytes` wrote, and the product itself cannot fail. The point is
/// the secret times the public point, so a peer computing with its own
/// secret and this secret's public key reaches the same x-coordinate.
#[verifier::external_body]
fn shared_secret(secret: &[u8], public: &[u8]) -> (r: Option<Vec<u8>>)
    ensures
        match r {
            Some(s) => ecdh_shared(secret@, public@) == Some(s@) && s@.len() == 32,
            None => ecdh_shared(secret@, public@) is None,
        },
        sec1_public_key(secret@) is Some && is_public_key(public@) ==> r is Some,
        r matches Some(s) ==> forall|peer: Seq<u8>|
            #[trigger] sec1_public_key(peer) == Some(public@) ==> match sec1_public_key(secret@) {
                Some(mine) => ecdh_shared(peer, mine) == Some(s@),
                None => false,
            },
{
    let sk = match k256::SecretKey::from_slice(secret) {
        Ok(k) => k,
        Err(_) => return None,
    };
    let pk = match k256::PublicKey::from_sec1_bytes(public) {
        Ok(k) => k,
        Err(_) => return None,
    };
    Some(k256::ecdh::diffie_hellman(sk.to_nonzero_scalar(), pk.as_affine()).raw_secret_bytes().to_vec())
}

/// Relies on `uuid::Uuid::new_v4`: a random identifier, as its 128-bit value.
#[verifier::external_body]
fn new_node_id() -> (r: u128) {
    uuid::Uuid::new_v4().as_u128()
}

/// The session key that `secret` derives with a peer's public key.
pub open spec fn session_key_from(secret: Seq<u8>, peer_public: Seq<u8>) -> Option<Seq<u8>> {
    match ecdh_shared(secret, peer_public) {
        Some(s) => Some(hkdf_sha3_key(s)),
        None => None,
    }
}

/// What a worker sends first: its ephemeral public key and the password.
#[derive(Clone, Debug)]
pub struct HandshakeRequest {
    pub client_pubkey: Vec<u8>,
    pub pass: Vec<u8>,
}

#[derive(Clone, Copy, Debug, PartialEq, Eq, Structural)]
pub enum HandshakeResult {
    Success,
    PasswordNotMatched,
    Unknown,
}

#[derive(Clone, Debug)]
pub struct HandshakeResponse {
    pub result: HandshakeResult,
    pub node_id: Option<u128>,
    pub server_pubkey: Option<Vec<u8>>,
}

impl HandshakeResponse {
    /// The node id and the server's key are each present exactly on success.
    pub open spec fn wf(&self) -> bool {
        &&& (self.result == HandshakeResult::Success) == (self.node_id is Some)
        &&& (self.result == HandshakeResult::Success) == (self.server_pubkey is Some)
    }

    /// A response that carries no session.
    pub fn failure(result: HandshakeResult) -> (r: Self)
        requires
            result != HandshakeResult::Success,
        ensures
            r.result == result,
            r.node_id is None,
            r.server_pubkey is None,
            r.wf(),
    {
        HandshakeResponse { result, node_id: None, server_pubkey: None }
    }
}

/// What a server records of one successful handshake.
#[derive(Clone, Debug)]
pub struct Session {
    pub node_id: u128,
    pub key: [u8; 32],
    pub client_pubkey: Vec<u8>,
}

/// The server's decision on one handshake request, given the password it
/// expects, its ephemeral secret and the node id it would assign.
pub fn respond(req: &HandshakeRequest, password: &[u8], server_secret: &[u8], node_id: u128) -> (r: (
    HandshakeResponse,
    Option<Session>,
))
    ensures
        r.0.wf(),
        req.pass@ != password@ ==> r.0.result == HandshakeResult::PasswordNotMatched && r.1 is None,
        req.pass@ == password@ ==> match (
            sec1_public_key(server_secret@),
            session_key_from(server_secret@, req.client_pubkey@),
        ) {
            (Some(p), Some(k)) => {
                &&& r.0.result == HandshakeResult::Success
                &&& r.0.node_id == Some(node_id)
                &&& r.0.server_pubkey matches Some(q) && q@ == p
                &&& r.1 matches Some(s) && s.node_id == node_id && s.key@ == k
                    && s.client_pubkey@ == req.client_pubkey@
            },
            _ => r.0.result == HandshakeResult::Unknown && r.1 is None,
        },
        req.pass@ == password@ && sec1_public_key(server_secret@) is Some && is_public_key(
            req.client_pubkey@,
        ) ==> r.0.result == HandshakeResult::Success,
        r.0.server_pubkey matches Some(p) ==> forall|peer: Seq<u8>|
            #[trigger] sec1_public_key(peer) == Some(req.client_pubkey@) ==> (r.1 matches Some(s)
                && session_key_from(peer, p@) == Some(s.key@)),
{
    if !bytes_eq(req.pass.as_slice(), password) {
        return (HandshakeResponse::failure(HandshakeResult::PasswordNotMatched), None);
    }
    let server_pubkey = match public_key_of(server_secret) {
        Some(p) => p,
        None => return (HandshakeResponse::failure(HandshakeResult::Unknown), None),
    };
    let shared = match shared_secret(server_secret, req.client_pubkey.as_slice()) {
        Some(s) => s,
        None => return (HandshakeResponse::failure(HandshakeResult::Unknown), None),
    };
    let key = expand_key(shared.as_slice());
    let client_pubkey = copy_range(req.client_pubkey.as_slice(), 0, req.client_pubkey.len());
    assert(req.client_pubkey@.subrange(0, req.client_pubkey@.len() as int) =~= req.client_pubkey@);
    let session = Session { node_id, key, client_pubkey };
    let response = HandshakeResponse {
        result: HandshakeResult::Success,
        node_id: Some(node_id),
        server_pubkey: Some(server_pubkey),
    };
    (response, Some(session))
}

/// A worker's opening move: a fresh ephemeral secret and the request that
/// carries its public key and the password.
pub fn client_hello(pass: &[u8]) -> (r: (HandshakeRequest, Vec<u8>))
    ensures
        sec1_public_key(r.1@) == Some(r.0.client_pubkey@),
        r.0.pass@ == pass@,
{
    let secret = generate_secret();
    let client_pubkey = match public_key_of(secret.as_slice()) {
        Some(p) => p,
        None => {
            assert(false);
            Vec::new()
        },
    };
    let pass_copy = copy_range(pass, 0, pass.len());
    assert(pass@.subrange(0, pass@.len() as int) =~= pass@);
    (HandshakeRequest { client_pubkey, pass: pass_copy }, secret)
}

/// The worker's reading of the server's response: the assigned node id and
/// the session key, derived from its own secret and the server's public key.
pub fn client_session_key(client_secret: &[u8], resp: &HandshakeResponse) -> (r: Result<
    (u128, [u8; 32]),
    ProtocolError,
>)
    ensures
        resp.result == HandshakeResult::PasswordNotMatched ==> r == Err::<(u128, [u8; 32]), ProtocolError>(
            ProtocolError::PasswordMismatch,
        ),
        resp.result == HandshakeResult::Unknown ==> r == Err::<(u128, [u8; 32]), ProtocolError>(
            ProtocolError::GeneralError,
        ),
        resp.result == HandshakeResult::Success ==> match (resp.node_id, resp.server_pubkey) {
            (Some(id), Some(p)) => match session_key_from(client_secret@, p@) {
                Some(k) => r matches Ok((i, key)) && i == id && key@ == k,
                None => r == Err::<(u128, [u8; 32]), ProtocolError>(ProtocolError::GeneralError),
            },
            _ => r == Err::<(u128, [u8; 32]), ProtocolError>(ProtocolError::GeneralError),
        },
        resp.result == HandshakeResult::Success && resp.node_id is Some && sec1_public_key(
            client_secret@,
        ) is Some ==> (resp.server_pubkey matches Some(p) && is_public_key(p@) ==> r is Ok),
{
    match resp.result {
        HandshakeResult::PasswordNotMatched => return Err(ProtocolError::PasswordMismatch),
        HandshakeResult::Unknown => return Err(ProtocolError::GeneralError),
        HandshakeResult::Success => {},
    }
    let id = match resp.node_id {
        Some(id) => id,
        None => return Err(ProtocolError::GeneralError),
    };
    let server_pubkey = match &resp.server_pubkey {
        Some(p) => p,
        None => return Err(ProtocolError::GeneralError),
    };
    match shared_secret(client_secret, server_pubkey.as_slice()) {
        Some(s) => Ok((id, expand_key(s.as_slice()))),
        None => Err(ProtocolError::GeneralError),
    }
}


/// The live sessions of a server, one per node id.
#[derive(Debug)]
pub struct SessionTable {
    pub sessions: Vec<Session>,
}

impl SessionTable {
    /// No two sessions share a node id.
    pub open spec fn wf(&self) -> bool {
        forall|i: int, j: int|
            0 <= i < j < self.sessions@.len() ==> self.sessions@[i].node_id
                != self.sessions@[j].node_id
    }

    /// Whether a session is recorded for `node_id` with `client_pubkey`.
    pub open spec fn binds(&self, node_id: u128, client_pubkey: Seq<u8>) -> bool {
        exists|i: int|
            0 <= i < self.sessions@.len() && #[trigger] self.sessions@[i].node_id == node_id
                && self.sessions@[i].client_pubkey@ == client_pubkey
    }

    pub fn new() -> (r: Self)
        ensures
            r.wf(),
            r.sessions@.len() == 0,
    {
        SessionTable { sessions: Vec::new() }
    }

    /// The position of the session of `node_id`, if there is one.
    pub fn find(&self, node_id: u128) -> (r: Option<usize>)
        ensures
            match r {
                Some(i) => i < self.sessions@.len() && self.sessions@[i as int].node_id == node_id,
                None => forall|i: int|
                    0 <= i < self.sessions@.len() ==> self.sessions@[i].node_id != node_id,
            },
    {
        let mut i: usize = 0;
        while i < self.sessions.len()
            invariant
                i <= self.sessions@.len(),
                forall|j: int| 0 <= j < i ==> self.sessions@[j].node_id != node_id,
            decreases self.sessions@.len() - i,
        {
            if self.sessions[i].node_id == node_id {
                return Some(i);
            }
            i = i + 1;
        }
        None
    }

    /// Records `session`, unless its node id is already taken.
    pub fn insert(&mut self, session: Session) -> (r: bool)
        requires
            old(self).wf(),
        ensures
            final(self).wf(),
            r == (forall|i: int|
                0 <= i < old(self).sessions@.len() ==> old(self).sessions@[i].node_id
                    != session.node_id),
            r ==> final(self).sessions@ == old(self).sessions@.push(session),
            !r ==> final(self).sessions@ == old(self).sessions@,
    {
        match self.find(session.node_id) {
            Some(_) => false,
            None => {
                self.sessions.push(session);
                true
            },
        }
    }

    /// Runs the server's side of one handshake: checks the password, draws an
    /// ephemeral secret and a node id, and records the session on success.
    pub fn accept(&mut self, req: &HandshakeRequest, password: &[u8]) -> (r: HandshakeResponse)
        requires
            old(self).wf(),
        ensures
            final(self).wf(),
            r.wf(),
            (r.result == HandshakeResult::PasswordNotMatched) == (req.pass@ != password@),
            r.result != HandshakeResult::Success ==> final(self).sessions@ == old(self).sessions@,
            r.result == HandshakeResult::Success ==> (r.node_id matches Some(id) && r.server_pubkey
                matches Some(p) && exists|s: Session, sk: Seq<u8>|
                {
                    &&& final(self).sessions@ == old(self).sessions@.push(s)
                    &&& s.node_id == id
                    &&& s.client_pubkey@ == req.client_pubkey@
                    &&& sec1_public_key(sk) == Some(p@)
                    &&& session_key_from(sk, req.client_pubkey@) == Some(s.key@)
                    &&& forall|peer: Seq<u8>|
                        #[trigger] sec1_public_key(peer) == Some(req.client_pubkey@)
                            ==> session_key_from(peer, p@) == Some(s.key@)
                }),
            req.pass@ == password@ && is_public_key(req.client_pubkey@) ==> (r.result
                == HandshakeResult::Success || (r.result == HandshakeResult::Unknown && old(
                self,
            ).sessions@.len() > 0)),
    {
        let secret = generate_secret();
        let node_id = new_node_id();
        let (response, session) = respond(req, password, secret.as_slice(), node_id);
        match session {
            None => response,
            Some(s) => {
                let ghost gs = s;
                if self.insert(s) {
                    assert(final(self).sessions@ == old(self).sessions@.push(gs));
                    response
                } else {
                    HandshakeResponse::failure(HandshakeResult::Unknown)
                }
            },
        }
    }

    /// The session that `body` claims. It fails with `AuthFailure` whenever no
    /// session holds the body's node id together with its client key.
    pub fn authenticate<'a, T>(&'a self, body: &BodyAfterHandshake<T>) -> (r: Result<
        &'a Session,
        ProtocolError,
    >)
        requires
            self.wf(),
        ensures
            match r {
                Ok(s) => self.sessions@.contains(*s) && s.node_id == body.node_id
                    && s.client_pubkey@ == body.client_pubkey@,
                Err(e) => e == ProtocolError::AuthFailure && !self.binds(
                    body.node_id,
                    body.client_pubkey@,
                ),
            },
            self.binds(body.node_id, body.client_pubkey@) == (r is Ok),
    {
        match self.find(body.node_id) {
            None => Err(ProtocolError::AuthFailure),
            Some(i) => {
                let s = &self.sessions[i];
                if bytes_eq(s.client_pubkey.as_slice(), body.client_pubkey.as_slice()) {
                    assert(self.sessions@[i as int] == *s);
                    Ok(s)
                } else {
                    Err(ProtocolError::AuthFailure)
                }
            },
        }
    }
}

impl SessionTable {
    /// Opens a sealed payload under the key of the session it claims. The
    /// binding is checked first: no ciphertext is opened for a body that no
    /// session binds.
    pub fn open_bound(&self, body: &BodyAfterHandshake<EncMessage>) -> (r: Result<
        Vec<u8>,
        ProtocolError,
    >)
        requires
            self.wf(),
        ensures
            !self.binds(body.node_id, body.client_pubkey@) ==> r == Err::<Vec<u8>, ProtocolError>(
                ProtocolError::AuthFailure,
            ),
            r matches Ok(p) ==> exists|i: int|
                0 <= i < self.sessions@.len() && self.sessions@[i].node_id == body.node_id
                    && seals(self.sessions@[i].key@, body.req.nonce@, body.req.ciphertext@, p@),
            forall|i: int, p: Seq<u8>|
                0 <= i < self.sessions@.len() && self.sessions@[i].node_id == body.node_id
                    && self.sessions@[i].client_pubkey@ == body.client_pubkey@ && #[trigger] seals(
                    self.sessions@[i].key@,
                    body.req.nonce@,
                    body.req.ciphertext@,
                    p,
                ) ==> (r matches Ok(q) && q@ == p),
            r matches Err(e) ==> e == ProtocolError::AuthFailure,
    {
        match self.authenticate(body) {
            Err(e) => Err(e),
            Ok(s) => {
                let r = body.req.decrypt(&s.key);
                proof {
                    let j = choose|j: int| 0 <= j < self.sessions@.len() && self.sessions@[j] == *s;
                    assert forall|i: int|
                        0 <= i < self.sessions@.len() && self.sessions@[i].node_id
                            == body.node_id implies i == j by {
                        if i != j {
                            assert(self.sessions@[i].node_id != self.sessions@[j].node_id);
                        }
                    }
                }
                r
            },
        }
    }
}

/// A post-handshake payload, bound to the node id and client key of the
/// handshake that created its session.
#[derive(Clone, Debug)]
pub struct BodyAfterHandshake<T> {
    pub node_id: u128,
    pub client_pubkey: Vec<u8>,
    pub req: T,
}

/// The canonical bytes of a session-bound payload: node id, the client key
/// with its length, then the payload.
pub open spec fn body_bytes(node_id: u128, client_pubkey: Seq<u8>, payload: Seq<u8>) -> Seq<u8> {
    be128(node_id) + be32(client_pubkey.len() as u32) + client_pubkey + payload
}

/// What reading session-bound bytes gives, if they are well formed.
pub open spec fn body_decode_spec(s: Seq<u8>) -> Option<(u128, Seq<u8>, Seq<u8>)> {
    if s.len() < 20 {
        None
    } else {
        let n = be32_at(s, 16) as int;
        if s.len() < 20 + n {
            None
        } else {
            Some((be128_at(s, 0), s.subrange(20, 20 + n), s.subrange(20 + n, s.len() as int)))
        }
    }
}

/// Reading the bytes of a session-bound payload gives back its node id,
/// client key and payload.
pub proof fn lemma_body_round_trip(node_id: u128, client_pubkey: Seq<u8>, payload: Seq<u8>)
    requires
        client_pubkey.len() <= u32::MAX,
    ensures
        body_decode_spec(body_bytes(node_id, client_pubkey, payload)) == Some(
            (node_id, client_pubkey, payload),
        ),
{
    let b = body_bytes(node_id, client_pubkey, payload);
    let n = client_pubkey.len() as int;
    lemma_be128_round_trip(node_id);
    lemma_be32_round_trip(n as u32);
    let h = be128(node_id);
    let l = be32(n as u32);
    assert(forall|i: int| 0 <= i < 16 ==> b[i] == h[i]);
    assert(be128_at(b, 0) == be128_at(h, 0));
    assert(b[16] == l[0] && b[17] == l[1] && b[18] == l[2] && b[19] == l[3]);
    assert(b.subrange(20, 20 + n) =~= client_pubkey);
    assert(b.subrange(20 + n, b.len() as int) =~= payload);
}

impl<T> BodyAfterHandshake<T> {
    /// Binds `req` to `session`.
    pub fn wrap(session: &Session, req: T) -> (r: Self)
        ensures
            r.node_id == session.node_id,
            r.client_pubkey@ == session.client_pubkey@,
            r.req == req,
    {
        let client_pubkey = copy_range(
            session.client_pubkey.as_slice(),
            0,
            session.client_pubkey.len(),
        );
        assert(session.client_pubkey@.subrange(0, session.client_pubkey@.len() as int)
            =~= session.client_pubkey@);
        BodyAfterHandshake { node_id: session.node_id, client_pubkey, req }
    }
}

impl BodyAfterHandshake<Vec<u8>> {
    pub fn bytes(&self) -> (r: Vec<u8>)
        requires
            self.client_pubkey@.len() <= u32::MAX,
        ensures
            r@ == body_bytes(self.node_id, self.client_pubkey@, self.req@),
    {
        let mut out: Vec<u8> = Vec::new();
        push_be128(&mut out, self.node_id);
        push_be32(&mut out, self.client_pubkey.len() as u32);
        append_bytes(&mut out, self.client_pubkey.as_slice());
        append_bytes(&mut out, self.req.as_slice());
        out
    }

    /// Reads session-bound bytes; fails with `GeneralError` on bytes that
    /// are too short for what they declare.
    pub fn from_bytes(bytes: &[u8]) -> (r: Result<Self, ProtocolError>)
        ensures
            match body_decode_spec(bytes@) {
                Some((id, pk, payload)) => r matches Ok(b) && b.node_id == id
                    && b.client_pubkey@ == pk && b.req@ == payload,
                None => r matches Err(e) && e == ProtocolError::GeneralError,
            },
    {
        if bytes.len() < 20 {
            return Err(ProtocolError::GeneralError);
        }
        let n = read_be32(bytes, 16) as usize;
        if bytes.len() - 20 < n {
            return Err(ProtocolError::GeneralError);
        }
        let node_id = read_be128(bytes, 0);
        let client_pubkey = copy_range(bytes, 20, 20 + n);
        let req = copy_range(bytes, 20 + n, bytes.len());
        Ok(BodyAfterHandshake { node_id, client_pubkey, req })
    }
}

impl SessionTable {
    /// Checks that no two sessions share a node id.
    pub fn is_wf(&self) -> (r: bool)
        ensures
            r == self.wf(),
    {
        let n = self.sessions.len();
        let mut i: usize = 0;
        while i < n
            invariant
                n == self.sessions@.len(),
                i <= n,
                forall|a: int, b: int|
                    0 <= a < b < n && a < i ==> self.sessions@[a].node_id
                        != self.sessions@[b].node_id,
            decreases n - i,
        {
            let mut j: usize = i + 1;
            while j < n
                invariant
                    n == self.sessions@.len(),
                    i < n,
                    i + 1 <= j <= n,
                    forall|a: int, b: int|
                        0 <= a < b < n && a < i ==> self.sessions@[a].node_id
                            != self.sessions@[b].node_id,
                    forall|b: int| i < b < j ==> self.sessions@[i as int].node_id
                        != self.sessions@[b].node_id,
                decreases n - j,
            {
                if self.sessions[i].node_id == self.sessions[j].node_id {
                    return false;
                }
                j = j + 1;
            }
            i = i + 1;
        }
        true
    }
}

impl View for HandshakeRequest {
    type V = (Seq<u8>, Seq<u8>);

    open spec fn view(&self) -> Self::V {
        (self.client_pubkey@, self.pass@)
    }
}

/// The canonical bytes of a handshake request: the client key, then the
/// password, each after its length.
pub open spec fn request_bytes(v: (Seq<u8>, Seq<u8>)) -> Seq<u8> {
    field_bytes(v.0) + field_bytes(v.1)
}

/// What reading exactly one handshake request from `s` gives.
pub open spec fn request_decode_spec(s: Seq<u8>) -> Option<(Seq<u8>, Seq<u8>)> {
    match take_field(s) {
        None => None,
        Some((k, r1)) => match take_field(r1) {
            None => None,
            Some((p, r2)) => if r2.len() == 0 {
                Some((k, p))
            } else {
                None
            },
        },
    }
}

/// Reading a handshake request's bytes gives back its key and password.
pub proof fn lemma_request_round_trip(v: (Seq<u8>, Seq<u8>))
    requires
        v.0.len() <= u32::MAX,
        v.1.len() <= u32::MAX,
    ensures
        request_decode_spec(request_bytes(v)) == Some(v),
{
    let e = Seq::<u8>::empty();
    lemma_take_field(v.0, field_bytes(v.1));
    assert(field_bytes(v.1) + e =~= field_bytes(v.1));
    lemma_take_field(v.1, e);
}

impl HandshakeRequest {
    pub fn bytes(&self) -> (r: Vec<u8>)
        requires
            self.client_pubkey@.len() <= u32::MAX,
            self.pass@.len() <= u32::MAX,
        ensures
            r@ == request_bytes(self@),
    {
        let mut out: Vec<u8> = Vec::new();
        push_field(&mut out, self.client_pubkey.as_slice());
        push_field(&mut out, self.pass.as_slice());
        out
    }

    /// Reads exactly one request; fails with `GeneralError` on anything else.
    pub fn from_bytes(bytes: &[u8]) -> (r: Result<Self, ProtocolError>)
        ensures
            match request_decode_spec(bytes@) {
                Some(v) => r matches Ok(q) && q@ == v,
                None => r matches Err(e) && e == ProtocolError::GeneralError,
            },
    {
        assert(bytes@.subrange(0, bytes@.len() as int) =~= bytes@);
        let (client_pubkey, a1) = match take_field_at(bytes, 0) {
            Some(x) => x,
            None => return Err(ProtocolError::GeneralError),
        };
        let (pass, a2) = match take_field_at(bytes, a1) {
            Some(x) => x,
            None => return Err(ProtocolError::GeneralError),
        };
        if a2 != bytes.len() {
            return Err(ProtocolError::GeneralError);
        }
        Ok(HandshakeRequest { client_pubkey, pass })
    }
}

impl HandshakeResult {
    /// The wire code of the result.
    pub open spec fn spec_code(self) -> u32 {
        match self {
            HandshakeResult::Success => 0,
            HandshakeResult::PasswordNotMatched => 1,
            HandshakeResult::Unknown => 2,
        }
    }

    /// The result that a wire code names, if any.
    pub open spec fn spec_from_code(code: u32) -> Option<HandshakeResult> {
        if code == 0 {
            Some(HandshakeResult::Success)
        } else if code == 1 {
            Some(HandshakeResult::PasswordNotMatched)
        } else if code == 2 {
            Some(HandshakeResult::Unknown)
        } else {
            None
        }
    }
}

impl View for HandshakeResponse {
    type V = (HandshakeResult, Option<u128>, Option<Seq<u8>>);

    open spec fn view(&self) -> Self::V {
        (
            self.result,
            self.node_id,
            match self.server_pubkey {
                Some(p) => Some(p@),
                None => None,
            },
        )
    }
}

/// An optional node id: a flag byte, then the id if there is one.
pub open spec fn opt_id_bytes(x: Option<u128>) -> Seq<u8> {
    match x {
        Some(id) => seq![1u8] + be128(id),
        None => seq![0u8],
    }
}

/// An optional byte field: a flag byte, then the field if there is one.
pub open spec fn opt_field_bytes(x: Option<Seq<u8>>) -> Seq<u8> {
    match x {
        Some(p) => seq![1u8] + field_bytes(p),
        None => seq![0u8],
    }
}

/// The canonical bytes of a handshake response: the result's code, then
/// the optional node id and the optional server key.
pub open spec fn response_bytes(v: (HandshakeResult, Option<u128>, Option<Seq<u8>>)) -> Seq<u8> {
    be32(v.0.spec_code()) + (opt_id_bytes(v.1) + opt_field_bytes(v.2))
}

/// An optional node id read from the front of `s`, and what follows it.
pub open spec fn take_opt_id(s: Seq<u8>) -> Option<(Option<u128>, Seq<u8>)> {
    match take_byte(s) {
        Some((0u8, r)) => Some((None, r)),
        Some((1u8, r)) => match take_u128(r) {
            Some((id, r2)) => Some((Some(id), r2)),
            None => None,
        },
        _ => None,
    }
}

/// An optional byte field read from the front of `s`, and what follows it.
pub open spec fn take_opt_field(s: Seq<u8>) -> Option<(Option<Seq<u8>>, Seq<u8>)> {
    match take_byte(s) {
        Some((0u8, r)) => Some((None, r)),
        Some((1u8, r)) => match take_field(r) {
            Some((p, r2)) => Some((Some(p), r2)),
            None => None,
        },
        _ => None,
    }
}

/// What reading exactly one handshake response from `s` gives.
pub open spec fn response_decode_spec(s: Seq<u8>) -> Option<
    (HandshakeResult, Option<u128>, Option<Seq<u8>>),
> {
    match take_u32(s) {
        None => None,
        Some((code, r1)) => match HandshakeResult::spec_from_code(code) {
            None => None,
            Some(res) => match take_opt_id(r1) {
                None => None,
                Some((id, r2)) => match take_opt_field(r2) {
                    None => None,
                    Some((p, r3)) => if r3.len() == 0 {
                        Some((res, id, p))
                    } else {
                        None
                    },
                },
            },
        },
    }
}

/// Reading a handshake response's bytes gives back every field.
pub proof fn lemma_response_round_trip(v: (HandshakeResult, Option<u128>, Option<Seq<u8>>))
    requires
        v.2 matches Some(p) ==> p.len() <= u32::MAX,
    ensures
        response_decode_spec(response_bytes(v)) == Some(v),
{
    let e = Seq::<u8>::empty();
    let r2 = opt_field_bytes(v.2);
    let r1 = opt_id_bytes(v.1) + r2;
    lemma_take_u32(v.0.spec_code(), r1);
    match v.1 {
        Some(id) => {
            assert(r1 =~= seq![1u8] + (be128(id) + r2));
            lemma_take_byte(1u8, be128(id) + r2);
            lemma_take_u128(id, r2);
        },
        None => {
            lemma_take_byte(0u8, r2);
        },
    }
    match v.2 {
        Some(p) => {
            assert(r2 + e =~= seq![1u8] + (field_bytes(p) + e));
            assert(field_bytes(p) + e =~= field_bytes(p));
            lemma_take_byte(1u8, field_bytes(p));
            lemma_take_field(p, e);
        },
        None => {
            assert(r2 + e =~= seq![0u8] + e);
            lemma_take_byte(0u8, e);
        },
    }
    assert(r2 + e =~= r2);
}

impl HandshakeResponse {
    pub fn bytes(&self) -> (r: Vec<u8>)
        requires
            self.server_pubkey matches Some(p) ==> p@.len() <= u32::MAX,
        ensures
            r@ == response_bytes(self@),
    {
        let mut out: Vec<u8> = Vec::new();
        let code: u32 = match self.result {
            HandshakeResult::Success => 0,
            HandshakeResult::PasswordNotMatched => 1,
            HandshakeResult::Unknown => 2,
        };
        push_be32(&mut out, code);
        match self.node_id {
            Some(id) => {
                out.push(1u8);
                push_be128(&mut out, id);
            },
            None => out.push(0u8),
        }
        match &self.server_pubkey {
            Some(p) => {
                out.push(1u8);
                push_field(&mut out, p.as_slice());
            },
            None => out.push(0u8),
        }
        assert(out@ =~= response_bytes(self@));
        out
    }

    /// Reads exactly one response; fails with `GeneralError` on anything else.
    pub fn from_bytes(bytes: &[u8]) -> (r: Result<Self, ProtocolError>)
        ensures
            match response_decode_spec(bytes@) {
                Some(v) => r matches Ok(q) && q@ == v,
                None => r matches Err(e) && e == ProtocolError::GeneralError,
            },
    {
        assert(bytes@.subrange(0, bytes@.len() as int) =~= bytes@);
        let (code, a1) = match take_u32_at(bytes, 0) {
            Some(x) => x,
            None => return Err(ProtocolError::GeneralError),
        };
        let result = if code == 0 {
            HandshakeResult::Success
        } else if code == 1 {
            HandshakeResult::PasswordNotMatched
        } else if code == 2 {
            HandshakeResult::Unknown
        } else {
            return Err(ProtocolError::GeneralError);
        };
        let (flag, a2) = match take_byte_at(bytes, a1) {
            Some(x) => x,
            None => return Err(ProtocolError::GeneralError),
        };
        let (node_id, a3) = if flag == 0 {
            (None, a2)
        } else if flag == 1 {
            match take_u128_at(bytes, a2) {
                Some((id, next)) => (Some(id), next),
                None => return Err(ProtocolError::GeneralError),
            }
        } else {
            return Err(ProtocolError::GeneralError);
        };
        let (flag2, a4) = match take_byte_at(bytes, a3) {
            Some(x) => x,
            None => return Err(ProtocolError::GeneralError),
        };
        let (server_pubkey, a5) = if flag2 == 0 {
            (None, a4)
        } else if flag2 == 1 {
            match take_field_at(bytes, a4) {
                Some((p, next)) => (Some(p), next),
                None => return Err(ProtocolError::GeneralError),
            }
        } else {
            return Err(ProtocolError::GeneralError);
        };
        if a5 != bytes.len() {
            return Err(ProtocolError::GeneralError);
        }
        Ok(HandshakeResponse { result, node_id, server_pubkey })
    }
}

} // verus!
