//! Encrypted hole-punch payloads: `nonce(24) || tag(16) || ciphertext`,
//! sealed with XSalsa20-Poly1305 (libsodium's `crypto_secretbox_easy`
//! layout), and per-host tokens under a local secret.
use vstd::prelude::*;
use vstd::string::StringSliceAdditionalSpecFns;
use crate::compact_encoding::EncodingError;
use crate::crypto::{blake2b_256_keyed, keyed_hash};
use crate::hyperdht_payloads::{
    decode_holepunch_payload_from_bytes, enc_holepunch_payload, encode_holepunch_payload_to_bytes,
    holepunch_payload_hosts, holepunch_payload_plan, parse_holepunch_payload, HolepunchPayload,
    HolepunchPayloadView,
};
use crate::compact_encoding::{first_bad_host, valid_peers};
use crate::secretstream::{push_all, slice_vec};
use rand::RngCore;
use xsalsa20poly1305::aead::{AeadInPlace, KeyInit};

verus! {

/// Nonce length.
pub const NONCE_SIZE: usize = 24;

/// Tag length.
pub const TAG_SIZE: usize = 16;

/// Errors of sealing and opening payloads.
#[derive(Debug)]
pub enum SecurePayloadError {
    /// The payload did not encode or decode.
    Encoding(EncodingError),
    /// The cipher refused to seal.
    EncryptFailed,
    /// The tag did not match.
    DecryptFailed,
    /// The buffer is shorter than a nonce, a tag and one byte.
    BufferTooShort,
}

/// The XSalsa20-Poly1305 ciphertext of `msg` and its detached tag, with no
/// associated data; `None` where the cipher refuses.
pub uninterp spec fn xsalsa20poly1305_seal(key: Seq<u8>, nonce: Seq<u8>, msg: Seq<u8>) -> Option<(Seq<u8>, Seq<u8>)>;

/// The XSalsa20-Poly1305 plaintext of `ct` under a detached `tag`, with no
/// associated data; `None` where the tag does not match.
pub uninterp spec fn xsalsa20poly1305_open(key: Seq<u8>, nonce: Seq<u8>, tag: Seq<u8>, ct: Seq<u8>) -> Option<Seq<u8>>;

/// `XSalsa20Poly1305::new(key).encrypt_in_place_detached(nonce, b"", msg)`:
/// the ciphertext (as long as the message) and the 16-byte tag.
#[verifier::external_body]
fn seal_detached(key: &[u8; 32], nonce: &[u8; 24], msg: &[u8]) -> (r: Option<(Vec<u8>, [u8; 16])>)
    ensures
        match r {
            Some((c, t)) => xsalsa20poly1305_seal(key@, nonce@, msg@) == Some((c@, t@)) && c@.len() == msg@.len(),
            None => xsalsa20poly1305_seal(key@, nonce@, msg@) is None,
        },
{
    let cipher = xsalsa20poly1305::XSalsa20Poly1305::new(key.into());
    let mut buf = msg.to_vec();
    match cipher.encrypt_in_place_detached(nonce.into(), b"", &mut buf) {
        Ok(tag) => {
            let mut t = [0u8; 16];
            t.copy_from_slice(tag.as_slice());
            Some((buf, t))
        },
        Err(_) => None,
    }
}

/// `XSalsa20Poly1305::new(key).decrypt_in_place_detached(nonce, b"", ct, tag)`.
#[verifier::external_body]
fn open_detached(key: &[u8; 32], nonce: &[u8; 24], tag: &[u8; 16], ct: &[u8]) -> (r: Option<Vec<u8>>)
    ensures
        match r {
            Some(p) => xsalsa20poly1305_open(key@, nonce@, tag@, ct@) == Some(p@),
            None => xsalsa20poly1305_open(key@, nonce@, tag@, ct@) is None,
        },
{
    let cipher = xsalsa20poly1305::XSalsa20Poly1305::new(key.into());
    let mut buf = ct.to_vec();
    match cipher.decrypt_in_place_detached(nonce.into(), b"", &mut buf, tag.into()) {
        Ok(()) => Some(buf),
        Err(_) => None,
    }
}

/// Thirty-two bytes of `rand::rng()`. Nothing is stated of them.
#[verifier::external_body]
fn random32() -> [u8; 32] {
    let mut b = [0u8; 32];
    rand::rng().fill_bytes(&mut b);
    b
}

/// Twenty-four bytes of `rand::rng()`. Nothing is stated of them.
#[verifier::external_body]
fn random24() -> [u8; 24] {
    let mut b = [0u8; 24];
    rand::rng().fill_bytes(&mut b);
    b
}

/// The sealed form of encoded bytes under `key` and `nonce`: nonce, tag,
/// ciphertext.
pub open spec fn sealed(key: Seq<u8>, nonce: Seq<u8>, plain: Seq<u8>) -> Result<Seq<u8>, SecurePayloadError> {
    match xsalsa20poly1305_seal(key, nonce, plain) {
        Some((c, t)) => Ok(nonce + t + c),
        None => Err(SecurePayloadError::EncryptFailed),
    }
}

/// The view of a sealing result.
pub open spec fn sealed_view(r: Result<Vec<u8>, SecurePayloadError>) -> Result<Seq<u8>, SecurePayloadError> {
    match r {
        Ok(v) => Ok(v@),
        Err(e) => Err(e),
    }
}

/// What opening a buffer gives: the decoded payload, or why not.
pub open spec fn opened_payload(key: Seq<u8>, buf: Seq<u8>) -> Result<HolepunchPayloadView, SecurePayloadError> {
    if buf.len() < NONCE_SIZE + TAG_SIZE + 1 {
        Err(SecurePayloadError::BufferTooShort)
    } else {
        match xsalsa20poly1305_open(key, buf.subrange(0, 24), buf.subrange(24, 40), buf.subrange(40, buf.len() as int)) {
            None => Err(SecurePayloadError::DecryptFailed),
            Some(p) => match parse_holepunch_payload(p) {
                Ok((v, _n)) => Ok(v),
                Err(e) => Err(SecurePayloadError::Encoding(e)),
            },
        }
    }
}

/// The view of an opening result.
pub open spec fn opened_view(r: Result<HolepunchPayload, SecurePayloadError>) -> Result<HolepunchPayloadView, SecurePayloadError> {
    match r {
        Ok(v) => Ok(v@),
        Err(e) => Err(e),
    }
}

/// Whether a payload's error, firewall and round fit the byte each is
/// planned for, and its encoding fits in memory.
pub open spec fn payload_encodable(m: HolepunchPayloadView) -> bool {
    &&& m.error <= 0xfc
    &&& m.firewall <= 0xfc
    &&& m.round <= 0xfc
    &&& holepunch_payload_plan(m) <= usize::MAX
}

/// Seals and opens hole-punch payloads under a shared secret, and makes
/// per-host tokens under a local one.
pub struct SecurePayload {
    shared_secret: [u8; 32],
    local_secret: [u8; 32],
}

impl SecurePayload {
    /// The shared secret.
    pub closed spec fn shared(&self) -> Seq<u8> {
        self.shared_secret@
    }

    /// The local secret.
    pub closed spec fn local(&self) -> Seq<u8> {
        self.local_secret@
    }

    /// A sealer under `holepunch_secret`, with a random local secret.
    pub fn new(holepunch_secret: [u8; 32]) -> (s: Self)
        ensures
            s.shared() == holepunch_secret@,
    {
        let local_secret = random32();
        SecurePayload { shared_secret: holepunch_secret, local_secret }
    }

    /// A sealer under `holepunch_secret` with the given local secret.
    pub fn with_local_secret(holepunch_secret: [u8; 32], local_secret: [u8; 32]) -> (s: Self)
        ensures
            s.shared() == holepunch_secret@,
            s.local() == local_secret@,
    {
        SecurePayload { shared_secret: holepunch_secret, local_secret }
    }

    /// Encodes and seals `payload` with a random nonce.
    pub fn encrypt(&self, payload: &HolepunchPayload) -> (r: Result<Vec<u8>, SecurePayloadError>)
        requires
            payload_encodable(payload@),
        ensures
            valid_peers(holepunch_payload_hosts(payload@)) ==> exists|nonce: Seq<u8>|
                nonce.len() == NONCE_SIZE && sealed_view(r) == #[trigger] sealed(self.shared(), nonce, enc_holepunch_payload(payload@)),
            !valid_peers(holepunch_payload_hosts(payload@)) ==> (r matches Err(SecurePayloadError::Encoding(e))
                && first_bad_host(holepunch_payload_hosts(payload@), e)),
    {
        let nonce = random24();
        let r = self.encrypt_with_nonce(payload, nonce);
        proof {
            if valid_peers(holepunch_payload_hosts(payload@)) {
                assert(nonce@.len() == NONCE_SIZE && sealed_view(r) == sealed(self.shared(), nonce@, enc_holepunch_payload(payload@)));
            }
        }
        r
    }

    /// Encodes and seals `payload` with `nonce_bytes`.
    pub fn encrypt_with_nonce(&self, payload: &HolepunchPayload, nonce_bytes: [u8; 24]) -> (r: Result<Vec<u8>, SecurePayloadError>)
        requires
            payload_encodable(payload@),
        ensures
            valid_peers(holepunch_payload_hosts(payload@)) ==> sealed_view(r) == sealed(
                self.shared(),
                nonce_bytes@,
                enc_holepunch_payload(payload@),
            ),
            !valid_peers(holepunch_payload_hosts(payload@)) ==> (r matches Err(SecurePayloadError::Encoding(e))
                && first_bad_host(holepunch_payload_hosts(payload@), e)),
    {
        let encoded = match encode_holepunch_payload_to_bytes(payload) {
            Ok(b) => b,
            Err(e) => {
                return Err(SecurePayloadError::Encoding(e));
            },
        };
        match seal_detached(&self.shared_secret, &nonce_bytes, encoded.as_slice()) {
            None => Err(SecurePayloadError::EncryptFailed),
            Some((c, t)) => {
                let mut out: Vec<u8> = Vec::new();
                push_all(&mut out, nonce_bytes.as_slice());
                push_all(&mut out, t.as_slice());
                push_all(&mut out, c.as_slice());
                Ok(out)
            },
        }
    }

    /// Opens a buffer sealed under the shared secret and decodes its payload.
    pub fn decrypt(&self, buffer: &[u8]) -> (r: Result<HolepunchPayload, SecurePayloadError>)
        ensures
            opened_view(r) == opened_payload(self.shared(), buffer@),
    {
        if buffer.len() < NONCE_SIZE + TAG_SIZE + 1 {
            return Err(SecurePayloadError::BufferTooShort);
        }
        let n = slice_vec(buffer, 0, 24);
        let t = slice_vec(buffer, 24, 40);
        let mut nonce = [0u8; 24];
        let mut tag = [0u8; 16];
        let mut i: usize = 0;
        while i < 24
            invariant
                i <= 24,
                n@.len() == 24,
                t@.len() == 16,
                forall|j: int| 0 <= j < i ==> nonce@[j] == n@[j],
                forall|j: int| 0 <= j < i && j < 16 ==> tag@[j] == t@[j],
            decreases 24 - i,
        {
            nonce[i] = n[i];
            if i < 16 {
                tag[i] = t[i];
            }
            i = i + 1;
        }
        proof {
            assert(nonce@ =~= n@);
            assert(tag@ =~= t@);
        }
        let ct = slice_vec(buffer, 40, buffer.len());
        match open_detached(&self.shared_secret, &nonce, &tag, ct.as_slice()) {
            None => Err(SecurePayloadError::DecryptFailed),
            Some(p) => match decode_holepunch_payload_from_bytes(p.as_slice()) {
                Ok(v) => Ok(v),
                Err(e) => Err(SecurePayloadError::Encoding(e)),
            },
        }
    }

    /// The token of a host: the keyed 32-byte BLAKE2b digest of its text
    /// under the local secret.
    pub fn token(&self, host: &str) -> (t: [u8; 32])
        ensures
            t@ == blake2b_256_keyed(self.local(), host.spec_bytes()),
    {
        keyed_hash(&self.local_secret, host.as_bytes())
    }
}

} // verus!
