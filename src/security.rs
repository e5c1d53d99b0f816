//! The authenticated envelope: one field sealed with ChaCha8-Poly1305 under
//! a fresh random nonce, and the derivation of session keys.
use vstd::prelude::*;
use chacha20poly1305::aead::{Aead, AeadCore, KeyInit};
use chacha20poly1305::ChaCha8Poly1305;
use crate::codec::{field_bytes, lemma_take_field, push_field, take_field, take_field_at};
use crate::constants::{NONCE_SIZE, TAG_SIZE};
use crate::error::ProtocolError;

verus! {

/// The ciphertext, tag appended, that ChaCha8-Poly1305 makes of `plaintext`
/// under `key` and `nonce`, with no associated data.
pub uninterp spec fn chacha8_sealed(key: Seq<u8>, nonce: Seq<u8>, plaintext: Seq<u8>) -> Seq<u8>;

/// The session key that HKDF with SHA3-256 expands from a shared secret:
/// no salt, no info, 32 bytes.
pub uninterp spec fn hkdf_sha3_key(shared: Seq<u8>) -> Seq<u8>;

/// Whether the cipher seals a plaintext of `len` bytes without running out
/// of keystream: block 0 keys Poly1305, so at most `u32::MAX - 1` blocks of
/// 64 bytes remain for the message.
pub open spec fn sealable(len: int) -> bool {
    len <= MAX_PLAINTEXT
}

/// The largest plaintext the cipher seals: `u32::MAX - 1` blocks of 64 bytes.
pub const MAX_PLAINTEXT: u64 = 0xFFFF_FFFE * 64;

/// The largest ciphertext that can be a sealing: the largest plaintext and
/// its tag.
pub const MAX_CIPHERTEXT: u64 = 0xFFFF_FFFE * 64 + 16;

/// Whether `ciphertext` is the sealing of `plaintext` under `key` and `nonce`.
pub open spec fn seals(key: Seq<u8>, nonce: Seq<u8>, ciphertext: Seq<u8>, plaintext: Seq<u8>) -> bool {
    &&& nonce.len() == NONCE_SIZE
    &&& sealable(plaintext.len() as int)
    &&& ciphertext.len() == plaintext.len() + TAG_SIZE
    &&& chacha8_sealed(key, nonce, plaintext) == ciphertext
}

/// Relies on `Aead::encrypt` of `ChaCha8Poly1305`: the keystream applied to
/// the plaintext, then the 16-byte Poly1305 tag; it fails only past the
/// block limit, which `requires` leaves out.
#[verifier::external_body]
pub fn standard_encrypt(key: &[u8; 32], nonce: &[u8], plaintext: &[u8]) -> (r: Vec<u8>)
    requires
        nonce@.len() == NONCE_SIZE,
        sealable(plaintext@.len() as int),
    ensures
        r@ == chacha8_sealed(key@, nonce@, plaintext@),
        r@.len() == plaintext@.len() + TAG_SIZE,
{
    let cipher = ChaCha8Poly1305::new(chacha20poly1305::Key::from_slice(key));
    cipher.encrypt(chacha20poly1305::Nonce::from_slice(nonce), plaintext).unwrap()
}

/// Relies on `Aead::decrypt` of `ChaCha8Poly1305`: it checks the tag before
/// it applies the keystream, so it returns a plaintext exactly when the
/// ciphertext is that plaintext's sealing, and the keystream makes that
/// plaintext unique.
#[verifier::external_body]
pub fn standard_decrypt(key: &[u8; 32], nonce: &[u8], ciphertext: &[u8]) -> (r: Option<Vec<u8>>)
    requires
        nonce@.len() == NONCE_SIZE,
        ciphertext@.len() <= MAX_CIPHERTEXT,
    ensures
        match r {
            Some(p) => seals(key@, nonce@, ciphertext@, p@) && forall|q: Seq<u8>|
                #[trigger] chacha8_sealed(key@, nonce@, q) == ciphertext@ && sealable(
                    q.len() as int,
                ) ==> q == p@,
            None => forall|q: Seq<u8>| !seals(key@, nonce@, ciphertext@, q),
        },
{
    let cipher = ChaCha8Poly1305::new(chacha20poly1305::Key::from_slice(key));
    cipher.decrypt(chacha20poly1305::Nonce::from_slice(nonce), ciphertext).ok()
}

/// Relies on `AeadCore::generate_nonce` with `rand::thread_rng`: twelve
/// bytes from a cryptographically secure generator.
#[verifier::external_body]
fn fresh_nonce() -> (r: Vec<u8>)
    ensures
        r@.len() == NONCE_SIZE,
{
    ChaCha8Poly1305::generate_nonce(rand::thread_rng()).to_vec()
}

/// Relies on `SharedSecret::extract::<Sha3_256>` and `Hkdf::expand` of the
/// `k256` and `hkdf` crates: 32 bytes expanded from a 32-byte shared secret,
/// which never exceeds HKDF's output limit.
#[verifier::external_body]
pub fn expand_key(shared: &[u8]) -> (r: [u8; 32])
    requires
        shared@.len() == 32,
    ensures
        r@ == hkdf_sha3_key(shared@),
{
    let secret = k256::ecdh::SharedSecret::from(*k256::FieldBytes::from_slice(shared));
    let mut okm = [0u8; 32];
    secret.extract::<sha3::Sha3_256>(None).expand(&[], &mut okm).ok();
    okm
}

/// One confidential field: a fresh nonce and the sealed bytes, tag included.
#[derive(Clone, Debug)]
pub struct EncMessage {
    pub nonce: Vec<u8>,
    pub ciphertext: Vec<u8>,
}

impl EncMessage {
    /// Seals `plaintext` under `key` with a freshly drawn nonce.
    pub fn generate(key: &[u8; 32], plaintext: &[u8]) -> (r: Self)
        requires
            sealable(plaintext@.len() as int),
        ensures
            seals(key@, r.nonce@, r.ciphertext@, plaintext@),
            r.ciphertext@.len() == plaintext@.len() + TAG_SIZE,
    {
        let nonce = fresh_nonce();
        let ciphertext = standard_encrypt(key, nonce.as_slice(), plaintext);
        Self { nonce, ciphertext }
    }

    /// Opens the field under `key`. A plaintext comes back only when the
    /// ciphertext is its sealing under this key and nonce; the sealing of a
    /// plaintext always opens to that plaintext.
    pub fn decrypt(&self, key: &[u8; 32]) -> (r: Result<Vec<u8>, ProtocolError>)
        ensures
            match r {
                Ok(p) => seals(key@, self.nonce@, self.ciphertext@, p@),
                Err(e) => e == ProtocolError::AuthFailure && forall|q: Seq<u8>|
                    !seals(key@, self.nonce@, self.ciphertext@, q),
            },
            forall|p: Seq<u8>|
                #[trigger] seals(key@, self.nonce@, self.ciphertext@, p) ==> (r matches Ok(q)
                    && q@ == p),
    {
        if self.nonce.len() != NONCE_SIZE {
            return Err(ProtocolError::AuthFailure);
        }
        if self.ciphertext.len() as u64 > MAX_CIPHERTEXT {
            return Err(ProtocolError::AuthFailure);
        }
        match standard_decrypt(key, self.nonce.as_slice(), self.ciphertext.as_slice()) {
            Some(p) => Ok(p),
            None => Err(ProtocolError::AuthFailure),
        }
    }
}

/// The canonical bytes of an envelope: the nonce and the ciphertext, each
/// after its length.
pub open spec fn enc_bytes(nonce: Seq<u8>, ciphertext: Seq<u8>) -> Seq<u8> {
    field_bytes(nonce) + field_bytes(ciphertext)
}

/// Whether both parts of an envelope fit their 32-bit length fields.
pub open spec fn enc_fits(nonce: Seq<u8>, ciphertext: Seq<u8>) -> bool {
    nonce.len() <= u32::MAX && ciphertext.len() <= u32::MAX
}

/// An envelope read from the front of `s`, and what follows it.
pub open spec fn take_enc(s: Seq<u8>) -> Option<((Seq<u8>, Seq<u8>), Seq<u8>)> {
    match take_field(s) {
        None => None,
        Some((n, r1)) => match take_field(r1) {
            None => None,
            Some((c, r2)) => Some(((n, c), r2)),
        },
    }
}

/// What reading exactly one envelope from `s` gives.
pub open spec fn enc_decode_spec(s: Seq<u8>) -> Option<(Seq<u8>, Seq<u8>)> {
    match take_enc(s) {
        Some((v, t)) => if t.len() == 0 {
            Some(v)
        } else {
            None
        },
        None => None,
    }
}

/// An envelope's bytes, followed by anything, read back as that envelope and
/// that remainder.
pub proof fn lemma_take_enc(nonce: Seq<u8>, ciphertext: Seq<u8>, t: Seq<u8>)
    requires
        enc_fits(nonce, ciphertext),
    ensures
        take_enc(enc_bytes(nonce, ciphertext) + t) == Some(((nonce, ciphertext), t)),
{
    assert(enc_bytes(nonce, ciphertext) + t =~= field_bytes(nonce) + (field_bytes(ciphertext)
        + t));
    lemma_take_field(nonce, field_bytes(ciphertext) + t);
    lemma_take_field(ciphertext, t);
}

/// Reading an envelope's bytes gives back its nonce and ciphertext.
pub proof fn lemma_enc_round_trip(nonce: Seq<u8>, ciphertext: Seq<u8>)
    requires
        enc_fits(nonce, ciphertext),
    ensures
        enc_decode_spec(enc_bytes(nonce, ciphertext)) == Some((nonce, ciphertext)),
{
    lemma_take_enc(nonce, ciphertext, Seq::empty());
    assert(enc_bytes(nonce, ciphertext) + Seq::<u8>::empty() =~= enc_bytes(nonce, ciphertext));
}

impl EncMessage {
    /// Appends the envelope's canonical bytes to `out`.
    pub fn push_bytes(&self, out: &mut Vec<u8>)
        requires
            enc_fits(self.nonce@, self.ciphertext@),
        ensures
            final(out)@ == old(out)@ + enc_bytes(self.nonce@, self.ciphertext@),
    {
        push_field(out, self.nonce.as_slice());
        push_field(out, self.ciphertext.as_slice());
        assert(final(out)@ =~= old(out)@ + enc_bytes(self.nonce@, self.ciphertext@));
    }

    pub fn bytes(&self) -> (r: Vec<u8>)
        requires
            enc_fits(self.nonce@, self.ciphertext@),
        ensures
            r@ == enc_bytes(self.nonce@, self.ciphertext@),
    {
        let mut out: Vec<u8> = Vec::new();
        self.push_bytes(&mut out);
        out
    }

    /// Reads an envelope at `at`; gives it and the position after it.
    pub fn take_at(s: &[u8], at: usize) -> (r: Option<(EncMessage, usize)>)
        requires
            at <= s@.len(),
        ensures
            match take_enc(s@.subrange(at as int, s@.len() as int)) {
                Some(((n, c), t)) => r matches Some((m, next)) && m.nonce@ == n && m.ciphertext@
                    == c && at <= next <= s@.len() && s@.subrange(next as int, s@.len() as int)
                    == t,
                None => r is None,
            },
    {
        let (nonce, at1) = match take_field_at(s, at) {
            Some(x) => x,
            None => return None,
        };
        let (ciphertext, at2) = match take_field_at(s, at1) {
            Some(x) => x,
            None => return None,
        };
        Some((EncMessage { nonce, ciphertext }, at2))
    }

    /// Reads exactly one envelope; fails with `GeneralError` on anything else.
    pub fn from_bytes(bytes: &[u8]) -> (r: Result<EncMessage, ProtocolError>)
        ensures
            match enc_decode_spec(bytes@) {
                Some((n, c)) => r matches Ok(m) && m.nonce@ == n && m.ciphertext@ == c,
                None => r matches Err(e) && e == ProtocolError::GeneralError,
            },
    {
        assert(bytes@.subrange(0, bytes@.len() as int) =~= bytes@);
        match EncMessage::take_at(bytes, 0) {
            Some((m, next)) => if next == bytes.len() {
                Ok(m)
            } else {
                Err(ProtocolError::GeneralError)
            },
            None => Err(ProtocolError::GeneralError),
        }
    }
}

} // verus!
