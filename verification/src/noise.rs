//! The Noise handshakes `Noise_XX_Ed25519_ChaChaPoly_BLAKE2b` and
//! `Noise_IK_Ed25519_ChaChaPoly_BLAKE2b` as HyperDHT peers speak them on
//! the wire.
//!
//! The symmetric state keeps a chaining key `ck` and a running hash `h`
//! (BLAKE2b-512), HKDF is HMAC-BLAKE2b with 128-byte pads, the cipher is
//! ChaCha20-Poly1305 with the nonce `[0; 4] || le64(n)`, and Diffie-Hellman
//! multiplies the remote Edwards point by the clamped SHA-512 of the local
//! seed.
use vstd::prelude::*;
use crate::compact_encoding::le_bytes;
use crate::crypto::ed25519_public;
use crate::secretstream::{push_all, push_zeros, le_vec, zeros};
use blake2::Digest;
use chacha20poly1305::aead::{Aead, KeyInit, Payload};
use chacha20poly1305::aead::rand_core::RngCore;

verus! {

/// `Noise_XX_Ed25519_ChaChaPoly_BLAKE2b`.
pub open spec fn xx_protocol_name() -> Seq<u8> {
    seq![
        78u8, 111, 105, 115, 101, 95, 88, 88, 95, 69, 100, 50, 53, 53, 49, 57, 95, 67, 104, 97, 67,
        104, 97, 80, 111, 108, 121, 95, 66, 76, 65, 75, 69, 50, 98,
    ]
}

/// `Noise_IK_Ed25519_ChaChaPoly_BLAKE2b`.
pub open spec fn ik_protocol_name() -> Seq<u8> {
    seq![
        78u8, 111, 105, 115, 101, 95, 73, 75, 95, 69, 100, 50, 53, 53, 49, 57, 95, 67, 104, 97, 67,
        104, 97, 80, 111, 108, 121, 95, 66, 76, 65, 75, 69, 50, 98,
    ]
}

/// Errors of the handshakes.
#[derive(Debug, PartialEq, Eq, Structural)]
pub enum NoiseError {
    /// A public key is not a point of the curve.
    InvalidPublicKey,
    /// A MAC did not match (or a message was too long to seal).
    DecryptionFailed,
    /// The handshake has already completed.
    HandshakeComplete,
    /// A message came out of turn or was too short.
    UnexpectedState,
}

// ── Outside primitives ──────────────────────────────────────────────────────

/// The BLAKE2b-512 digest of `data`.
pub uninterp spec fn blake2b512(data: Seq<u8>) -> [u8; 64];

/// The SHA-512 digest of `data`.
pub uninterp spec fn sha512(data: Seq<u8>) -> [u8; 64];

/// The compressed Edwards point `scalar · point`, where `scalar` is read
/// modulo the group order; `None` where `point` does not decompress.
pub uninterp spec fn edwards_mul(scalar: Seq<u8>, point: Seq<u8>) -> Option<[u8; 32]>;

/// The ChaCha20-Poly1305 ciphertext (message, then 16-byte tag) of `msg`
/// with associated data `ad`; `None` where the message is too long.
pub uninterp spec fn chacha20poly1305_seal(key: Seq<u8>, nonce: Seq<u8>, ad: Seq<u8>, msg: Seq<u8>) -> Option<Seq<u8>>;

/// The ChaCha20-Poly1305 plaintext of `ct`, or `None` where its tag does
/// not match.
pub uninterp spec fn chacha20poly1305_open(key: Seq<u8>, nonce: Seq<u8>, ad: Seq<u8>, ct: Seq<u8>) -> Option<Seq<u8>>;

/// `Blake2b512::digest(data)`.
#[verifier::external_body]
fn blake2b_512(data: &[u8]) -> (h: [u8; 64])
    ensures
        h == blake2b512(data@),
{
    let out = blake2::Blake2b512::digest(data);
    let mut h = [0u8; 64];
    h.copy_from_slice(&out);
    h
}

/// `Sha512::digest(data)`.
#[verifier::external_body]
fn sha512_digest(data: &[u8]) -> (h: [u8; 64])
    ensures
        h == sha512(data@),
{
    let out = sha2::Sha512::digest(data);
    let mut h = [0u8; 64];
    h.copy_from_slice(&out);
    h
}

/// `CompressedEdwardsY(point).decompress()`, then the product with
/// `Scalar::from_bytes_mod_order(scalar)`, compressed.
#[verifier::external_body]
fn edwards_scalar_mul(scalar: &[u8; 32], point: &[u8; 32]) -> (r: Option<[u8; 32]>)
    ensures
        r == edwards_mul(scalar@, point@),
{
    let s = curve25519_dalek::Scalar::from_bytes_mod_order(*scalar);
    match curve25519_dalek::edwards::CompressedEdwardsY(*point).decompress() {
        Some(p) => Some((p * s).compress().to_bytes()),
        None => None,
    }
}

/// The view of an optional byte vector.
pub open spec fn opt_bytes(r: Option<Vec<u8>>) -> Option<Seq<u8>> {
    match r {
        Some(v) => Some(v@),
        None => None,
    }
}

/// `ChaCha20Poly1305::new(key).encrypt(nonce, Payload { msg, aad })`. Its
/// ciphertext is the message's length plus the 16-byte tag.
#[verifier::external_body]
fn aead_encrypt(key: &[u8; 32], nonce: &[u8; 12], msg: &[u8], ad: &[u8]) -> (r: Option<Vec<u8>>)
    ensures
        opt_bytes(r) == chacha20poly1305_seal(key@, nonce@, ad@, msg@),
        r matches Some(c) ==> c@.len() == msg@.len() + 16,
{
    let cipher = chacha20poly1305::ChaCha20Poly1305::new(key.into());
    match cipher.encrypt(nonce.into(), Payload { msg, aad: ad }) {
        Ok(c) => Some(c),
        Err(_) => None,
    }
}

/// `ChaCha20Poly1305::new(key).decrypt(nonce, Payload { msg: ct, aad })`.
/// A plaintext is the ciphertext less its 16-byte tag.
#[verifier::external_body]
fn aead_decrypt(key: &[u8; 32], nonce: &[u8; 12], ct: &[u8], ad: &[u8]) -> (r: Option<Vec<u8>>)
    ensures
        opt_bytes(r) == chacha20poly1305_open(key@, nonce@, ad@, ct@),
        r matches Some(p) ==> p@.len() + 16 == ct@.len(),
{
    let cipher = chacha20poly1305::ChaCha20Poly1305::new(key.into());
    match cipher.decrypt(nonce.into(), Payload { msg: ct, aad: ad }) {
        Ok(p) => Some(p),
        Err(_) => None,
    }
}

/// Thirty-two bytes of the operating system's generator
/// (`rand_core::OsRng::fill_bytes`, which panics where the generator fails).
/// Nothing is stated of them.
#[verifier::external_body]
fn random_seed() -> [u8; 32] {
    let mut seed = [0u8; 32];
    chacha20poly1305::aead::rand_core::OsRng.fill_bytes(&mut seed);
    seed
}

// ── Byte helpers ────────────────────────────────────────────────────────────

/// The 32 bytes of `v` from `off`.
fn array32(v: &[u8], off: usize) -> (r: [u8; 32])
    requires
        off + 32 <= v@.len(),
    ensures
        r@ == v@.subrange(off as int, off + 32),
{
    let vlen = v.len();
    let mut r = [0u8; 32];
    let mut i: usize = 0;
    while i < 32
        invariant
            i <= 32,
            vlen == v@.len(),
            off + 32 <= v@.len(),
            forall|j: int| 0 <= j < i ==> r@[j] == v@[off + j],
        decreases 32 - i,
    {
        r[i] = v[off + i];
        i = i + 1;
    }
    proof {
        assert(r@ =~= v@.subrange(off as int, off + 32));
    }
    r
}

/// `v` with `n` zero bytes after it.
pub open spec fn pad_to(v: Seq<u8>, n: nat) -> Seq<u8> {
    v + zeros((n - v.len()) as nat)
}

// ── HMAC, HKDF, Diffie-Hellman ──────────────────────────────────────────────

/// The 128-byte HMAC key block of `key`.
pub open spec fn hmac_key_block(key: Seq<u8>) -> Seq<u8> {
    if key.len() > 128 {
        pad_to(blake2b512(key)@, 128)
    } else {
        pad_to(key, 128)
    }
}

/// Each byte of `k` XORed with `x`.
pub open spec fn xor_each(k: Seq<u8>, x: u8) -> Seq<u8> {
    Seq::new(k.len(), |i: int| k[i] ^ x)
}

/// HMAC-BLAKE2b-512 of `data` under `key`.
pub open spec fn hmac_of(key: Seq<u8>, data: Seq<u8>) -> Seq<u8> {
    let k = hmac_key_block(key);
    let inner = blake2b512(xor_each(k, 0x36) + data)@;
    blake2b512(xor_each(k, 0x5c) + inner)@
}

/// The two HKDF outputs of `ck` and `ikm` (empty info).
pub open spec fn hkdf_of(ck: Seq<u8>, ikm: Seq<u8>) -> (Seq<u8>, Seq<u8>) {
    let t = hmac_of(ck, ikm);
    let o1 = hmac_of(t, seq![1u8]);
    (o1, hmac_of(t, o1.push(2u8)))
}

/// The clamped scalar of a 64-byte SHA-512 digest: its first 32 bytes with
/// the low three bits and the top bit cleared and bit 254 set.
pub open spec fn clamp(h: Seq<u8>) -> Seq<u8> {
    let b = h.subrange(0, 32);
    b.update(0, b[0] & 248).update(31, (b[31] & 127) | 64)
}

/// The shared secret of a 64-byte secret key (seed, then public key) and a
/// remote public key, or `None` where that key is not a curve point.
pub open spec fn dh_of(secret_key: Seq<u8>, public_key: Seq<u8>) -> Option<Seq<u8>> {
    match edwards_mul(clamp(sha512(secret_key.subrange(0, 32))@), public_key) {
        Some(p) => Some(p@),
        None => None,
    }
}

/// HMAC-BLAKE2b-512 with 128-byte pads; a key longer than 128 bytes is
/// hashed first.
pub fn hmac_blake2b(key: &[u8], data: &[u8]) -> (r: [u8; 64])
    requires
        data@.len() + 128 <= usize::MAX,
    ensures
        r@ == hmac_of(key@, data@),
{
    let mut k: Vec<u8> = Vec::new();
    if key.len() > 128 {
        let h = blake2b_512(key);
        push_all(&mut k, h.as_slice());
        push_zeros(&mut k, 64);
    } else {
        push_all(&mut k, key);
        push_zeros(&mut k, 128 - key.len());
    }
    proof {
        assert(k@ =~= hmac_key_block(key@));
    }
    let mut ipad: Vec<u8> = Vec::new();
    let mut opad: Vec<u8> = Vec::new();
    let mut i: usize = 0;
    while i < 128
        invariant
            i <= 128,
            k@.len() == 128,
            ipad@ =~= xor_each(k@.subrange(0, i as int), 0x36),
            opad@ =~= xor_each(k@.subrange(0, i as int), 0x5c),
        decreases 128 - i,
    {
        ipad.push(k[i] ^ 0x36);
        opad.push(k[i] ^ 0x5c);
        i = i + 1;
        proof {
            assert(ipad@ =~= xor_each(k@.subrange(0, i as int), 0x36));
            assert(opad@ =~= xor_each(k@.subrange(0, i as int), 0x5c));
        }
    }
    proof {
        assert(k@.subrange(0, 128) =~= k@);
    }
    push_all(&mut ipad, data);
    let inner = blake2b_512(ipad.as_slice());
    push_all(&mut opad, inner.as_slice());
    blake2b_512(opad.as_slice())
}

/// HKDF over HMAC-BLAKE2b-512 with empty info: the first two output blocks.
pub fn hkdf(chaining_key: &[u8; 64], input_key_material: &[u8]) -> (r: ([u8; 64], [u8; 64]))
    requires
        input_key_material@.len() + 128 <= usize::MAX,
    ensures
        (r.0@, r.1@) == hkdf_of(chaining_key@, input_key_material@),
{
    let temp_key = hmac_blake2b(chaining_key.as_slice(), input_key_material);
    let one: Vec<u8> = vec![1u8];
    let output1 = hmac_blake2b(temp_key.as_slice(), one.as_slice());
    let mut input2: Vec<u8> = Vec::new();
    push_all(&mut input2, output1.as_slice());
    input2.push(2u8);
    let output2 = hmac_blake2b(temp_key.as_slice(), input2.as_slice());
    proof {
        assert(one@ =~= seq![1u8]);
        assert(input2@ =~= output1@.push(2u8));
    }
    (output1, output2)
}

/// Ed25519 Diffie-Hellman as HyperDHT peers compute it: SHA-512 of the
/// seed, clamped, times the remote point.
pub fn ed25519_dh(secret_key: &[u8; 64], public_key: &[u8; 32]) -> (r: Result<[u8; 32], NoiseError>)
    ensures
        match r {
            Ok(x) => dh_of(secret_key@, public_key@) == Some(x@),
            Err(e) => dh_of(secret_key@, public_key@) is None && e == NoiseError::InvalidPublicKey,
        },
{
    let seed = array32(secret_key.as_slice(), 0);
    let hash = sha512_digest(seed.as_slice());
    let mut scalar = array32(hash.as_slice(), 0);
    scalar[0] = scalar[0] & 248;
    scalar[31] = (scalar[31] & 127) | 64;
    proof {
        assert(scalar@ =~= clamp(sha512(secret_key@.subrange(0, 32))@));
    }
    match edwards_scalar_mul(&scalar, public_key) {
        Some(p) => Ok(p),
        None => Err(NoiseError::InvalidPublicKey),
    }
}

// ── Cipher and symmetric state ──────────────────────────────────────────────

/// The 12-byte nonce of counter `n`: four zero bytes, then `n` little-endian.
pub open spec fn nonce_bytes(n: nat) -> Seq<u8> {
    zeros(4) + le_bytes(n, 8)
}

/// What the cipher makes of `pt` with key `key` at counter `n`: the
/// plaintext itself without a key.
pub open spec fn cipher_out(key: Option<Seq<u8>>, n: nat, ad: Seq<u8>, pt: Seq<u8>) -> Result<Seq<u8>, NoiseError> {
    match key {
        None => Ok(pt),
        Some(k) => match chacha20poly1305_seal(k, nonce_bytes(n), ad, pt) {
            Some(c) => Ok(c),
            None => Err(NoiseError::DecryptionFailed),
        },
    }
}

/// What the cipher makes of `ct` with key `key` at counter `n`: the
/// ciphertext itself without a key.
pub open spec fn cipher_in(key: Option<Seq<u8>>, n: nat, ad: Seq<u8>, ct: Seq<u8>) -> Result<Seq<u8>, NoiseError> {
    match key {
        None => Ok(ct),
        Some(k) => match chacha20poly1305_open(k, nonce_bytes(n), ad, ct) {
            Some(p) => Ok(p),
            None => Err(NoiseError::DecryptionFailed),
        },
    }
}

/// The view of a byte result.
pub open spec fn res_bytes(r: Result<Vec<u8>, NoiseError>) -> Result<Seq<u8>, NoiseError> {
    match r {
        Ok(v) => Ok(v@),
        Err(e) => Err(e),
    }
}

/// ChaCha20-Poly1305 with a counter nonce; without a key it passes data
/// through unchanged.
pub struct CipherState {
    key: Option<[u8; 32]>,
    nonce: u64,
}

impl CipherState {
    /// The key, as bytes.
    pub closed spec fn key_view(&self) -> Option<Seq<u8>> {
        match self.key {
            Some(k) => Some(k@),
            None => None,
        }
    }

    /// The counter.
    pub closed spec fn counter(&self) -> nat {
        self.nonce as nat
    }

    /// A state without a key.
    pub fn new() -> (c: Self)
        ensures
            c.key_view() is None,
            c.counter() == 0,
    {
        CipherState { key: None, nonce: 0 }
    }

    /// Whether a key is set.
    pub fn has_key(&self) -> (r: bool)
        ensures
            r == self.key_view() is Some,
    {
        self.key.is_some()
    }

    /// Sets the key and restarts the counter.
    pub fn set_key(&mut self, key: [u8; 32])
        ensures
            final(self).key_view() == Some(key@),
            final(self).counter() == 0,
    {
        self.key = Some(key);
        self.nonce = 0;
    }

    /// The nonce of counter `n`.
    fn build_nonce(n: u64) -> (r: [u8; 12])
        ensures
            r@ == nonce_bytes(n as nat),
    {
        let b = le_vec(n, 8);
        let mut r = [0u8; 12];
        let mut i: usize = 0;
        while i < 8
            invariant
                i <= 8,
                b@.len() == 8,
                r@[0] == 0 && r@[1] == 0 && r@[2] == 0 && r@[3] == 0,
                forall|j: int| 4 <= j < 4 + i ==> r@[j] == b@[j - 4],
            decreases 8 - i,
        {
            r[4 + i] = b[i];
            i = i + 1;
        }
        proof {
            assert(r@ =~= nonce_bytes(n as nat));
        }
        r
    }

    /// Encrypts `plaintext` with associated data `ad`; with a key, the
    /// counter then goes up by one.
    pub fn encrypt(&mut self, plaintext: &[u8], ad: &[u8]) -> (r: Result<Vec<u8>, NoiseError>)
        requires
            old(self).counter() < u64::MAX,
        ensures
            res_bytes(r) == cipher_out(old(self).key_view(), old(self).counter(), ad@, plaintext@),
            final(self).key_view() == old(self).key_view(),
            final(self).counter() == (if r is Ok && old(self).key_view() is Some { old(self).counter() + 1 } else { old(self).counter() }),
            r matches Ok(c) ==> c@.len() == plaintext@.len() + (if old(self).key_view() is Some { 16int } else { 0int }),
    {
        match self.key {
            None => {
                let mut v: Vec<u8> = Vec::new();
                push_all(&mut v, plaintext);
                Ok(v)
            },
            Some(k) => {
                let nonce = Self::build_nonce(self.nonce);
                match aead_encrypt(&k, &nonce, plaintext, ad) {
                    Some(c) => {
                        self.nonce = self.nonce + 1;
                        Ok(c)
                    },
                    None => Err(NoiseError::DecryptionFailed),
                }
            },
        }
    }

    /// Decrypts `ciphertext` (tag included) with associated data `ad`; with a
    /// key, the counter then goes up by one.
    pub fn decrypt(&mut self, ciphertext: &[u8], ad: &[u8]) -> (r: Result<Vec<u8>, NoiseError>)
        requires
            old(self).counter() < u64::MAX,
        ensures
            res_bytes(r) == cipher_in(old(self).key_view(), old(self).counter(), ad@, ciphertext@),
            final(self).key_view() == old(self).key_view(),
            final(self).counter() == (if r is Ok && old(self).key_view() is Some { old(self).counter() + 1 } else { old(self).counter() }),
            r matches Ok(p) ==> p@.len() + (if old(self).key_view() is Some { 16int } else { 0int }) == ciphertext@.len(),
    {
        match self.key {
            None => {
                let mut v: Vec<u8> = Vec::new();
                push_all(&mut v, ciphertext);
                Ok(v)
            },
            Some(k) => {
                let nonce = Self::build_nonce(self.nonce);
                match aead_decrypt(&k, &nonce, ciphertext, ad) {
                    Some(p) => {
                        self.nonce = self.nonce + 1;
                        Ok(p)
                    },
                    None => Err(NoiseError::DecryptionFailed),
                }
            },
        }
    }
}

/// The symmetric state as values: chaining key, hash, cipher key and counter.
pub struct SymView {
    pub ck: Seq<u8>,
    pub h: Seq<u8>,
    pub key: Option<Seq<u8>>,
    pub n: nat,
}

/// The state a protocol name starts: the name padded to 64 bytes (hashed
/// where longer) as both hash and chaining key, and no cipher key.
pub open spec fn sym_init(name: Seq<u8>) -> SymView {
    let h = if name.len() <= 64 { pad_to(name, 64) } else { blake2b512(name)@ };
    SymView { ck: h, h, key: None, n: 0 }
}

/// `h = BLAKE2b-512(h || data)`.
pub open spec fn mix_hash_of(st: SymView, data: Seq<u8>) -> SymView {
    SymView { h: blake2b512(st.h + data)@, ..st }
}

/// HKDF of the chaining key and `dh`: the new chaining key, and a new
/// cipher key with its counter at zero.
pub open spec fn mix_key_of(st: SymView, dh: Seq<u8>) -> SymView {
    let (ck, t) = hkdf_of(st.ck, dh);
    SymView { ck, key: Some(t.subrange(0, 32)), n: 0, ..st }
}

/// The counter after a successful use of the cipher.
pub open spec fn bump(st: SymView) -> SymView {
    if st.key is Some {
        SymView { n: st.n + 1, ..st }
    } else {
        st
    }
}

/// Encrypts `pt` with the hash as associated data, then mixes the
/// ciphertext into the hash: the new state and the ciphertext.
pub open spec fn eah_of(st: SymView, pt: Seq<u8>) -> Result<(SymView, Seq<u8>), NoiseError> {
    match cipher_out(st.key, st.n, st.h, pt) {
        Ok(c) => Ok((mix_hash_of(bump(st), c), c)),
        Err(e) => Err(e),
    }
}

/// Decrypts `ct` with the hash as associated data, then mixes the
/// ciphertext into the hash: the new state and the plaintext.
pub open spec fn dah_of(st: SymView, ct: Seq<u8>) -> Result<(SymView, Seq<u8>), NoiseError> {
    match cipher_in(st.key, st.n, st.h, ct) {
        Ok(p) => Ok((mix_hash_of(bump(st), ct), p)),
        Err(e) => Err(e),
    }
}

/// The two session keys: the first 32 bytes of each HKDF output of the
/// chaining key and nothing.
pub open spec fn split_of(st: SymView) -> (Seq<u8>, Seq<u8>) {
    let (t1, t2) = hkdf_of(st.ck, Seq::empty());
    (t1.subrange(0, 32), t2.subrange(0, 32))
}

/// The symmetric state of a handshake.
pub struct SymmetricState {
    chaining_key: [u8; 64],
    digest: [u8; 64],
    cipher: CipherState,
}

impl View for SymmetricState {
    type V = SymView;

    closed spec fn view(&self) -> SymView {
        SymView { ck: self.chaining_key@, h: self.digest@, key: self.cipher.key_view(), n: self.cipher.counter() }
    }
}

impl SymmetricState {
    /// The state of a protocol name.
    pub fn new(protocol_name: &[u8]) -> (s: Self)
        ensures
            s@ == sym_init(protocol_name@),
    {
        let digest = if protocol_name.len() <= 64 {
            let mut v: Vec<u8> = Vec::new();
            push_all(&mut v, protocol_name);
            push_zeros(&mut v, 64 - protocol_name.len());
            let mut d = [0u8; 64];
            let mut i: usize = 0;
            while i < 64
                invariant
                    i <= 64,
                    v@.len() == 64,
                    forall|j: int| 0 <= j < i ==> d@[j] == v@[j],
                decreases 64 - i,
            {
                d[i] = v[i];
                i = i + 1;
            }
            proof {
                assert(d@ =~= pad_to(protocol_name@, 64));
            }
            d
        } else {
            blake2b_512(protocol_name)
        };
        let c = CipherState::new();
        SymmetricState { chaining_key: digest, digest, cipher: c }
    }

    /// Mixes `data` into the hash.
    pub fn mix_hash(&mut self, data: &[u8])
        requires
            data@.len() + 64 <= usize::MAX,
        ensures
            final(self)@ == mix_hash_of(old(self)@, data@),
    {
        let mut v: Vec<u8> = Vec::new();
        push_all(&mut v, self.digest.as_slice());
        push_all(&mut v, data);
        self.digest = blake2b_512(v.as_slice());
    }

    /// Mixes a Diffie-Hellman output into the chaining key and sets the
    /// cipher key.
    pub fn mix_key(&mut self, dh_output: &[u8; 32])
        ensures
            final(self)@ == mix_key_of(old(self)@, dh_output@),
    {
        let (ck, temp_k) = hkdf(&self.chaining_key, dh_output.as_slice());
        self.chaining_key = ck;
        let key = array32(temp_k.as_slice(), 0);
        self.cipher.set_key(key);
    }

    /// Encrypts with the hash as associated data and mixes the ciphertext
    /// into the hash; on failure nothing changes.
    pub fn encrypt_and_hash(&mut self, plaintext: &[u8]) -> (r: Result<Vec<u8>, NoiseError>)
        requires
            old(self)@.n < u64::MAX,
            plaintext@.len() + 128 <= usize::MAX,
        ensures
            match eah_of(old(self)@, plaintext@) {
                Ok((st, c)) => r matches Ok(v) && v@ == c && final(self)@ == st,
                Err(e) => r == Err::<Vec<u8>, NoiseError>(e) && final(self)@ == old(self)@,
            },
            r matches Ok(c) ==> c@.len() == plaintext@.len() + (if old(self)@.key is Some { 16int } else { 0int }),
    {
        let ad = self.digest;
        let c = self.cipher.encrypt(plaintext, ad.as_slice())?;
        self.mix_hash(c.as_slice());
        Ok(c)
    }

    /// Decrypts with the hash as associated data and mixes the ciphertext
    /// into the hash; on failure nothing changes.
    pub fn decrypt_and_hash(&mut self, ciphertext: &[u8]) -> (r: Result<Vec<u8>, NoiseError>)
        requires
            old(self)@.n < u64::MAX,
            ciphertext@.len() + 128 <= usize::MAX,
        ensures
            match dah_of(old(self)@, ciphertext@) {
                Ok((st, p)) => r matches Ok(v) && v@ == p && final(self)@ == st,
                Err(e) => r == Err::<Vec<u8>, NoiseError>(e) && final(self)@ == old(self)@,
            },
            r matches Ok(p) ==> p@.len() + (if old(self)@.key is Some { 16int } else { 0int }) == ciphertext@.len(),
    {
        let ad = self.digest;
        let p = self.cipher.decrypt(ciphertext, ad.as_slice())?;
        self.mix_hash(ciphertext);
        Ok(p)
    }

    /// The two session keys.
    pub fn split(&self) -> (r: ([u8; 32], [u8; 32]))
        ensures
            (r.0@, r.1@) == split_of(self@),
    {
        let empty: Vec<u8> = Vec::new();
        let (t1, t2) = hkdf(&self.chaining_key, empty.as_slice());
        proof {
            assert(empty@ =~= Seq::<u8>::empty());
        }
        (array32(t1.as_slice(), 0), array32(t2.as_slice(), 0))
    }

    /// The hash.
    pub fn get_handshake_hash(&self) -> (h: [u8; 64])
        ensures
            h@ == self@.h,
    {
        self.digest
    }

    /// Whether the cipher has a key.
    pub fn has_key(&self) -> (r: bool)
        ensures
            r == self@.key is Some,
    {
        self.cipher.has_key()
    }
}

// ── Keys and results ────────────────────────────────────────────────────────

/// An Ed25519 key pair; the secret key is the seed, then the public key.
#[derive(Clone)]
pub struct Keypair {
    pub public_key: [u8; 32],
    pub secret_key: [u8; 64],
}

/// Whether `k` is the key pair of its seed.
pub open spec fn keypair_valid(k: Keypair) -> bool {
    &&& k.public_key@ == ed25519_public(k.secret_key@.subrange(0, 32))
    &&& k.secret_key@.subrange(32, 64) == k.public_key@
}

/// The session keys and transcript of a completed handshake.
#[derive(Clone)]
pub struct HandshakeResult {
    /// The key to encrypt with.
    pub tx: [u8; 32],
    /// The key to decrypt with.
    pub rx: [u8; 32],
    /// The final handshake hash.
    pub handshake_hash: [u8; 64],
    /// The remote static public key.
    pub remote_public_key: [u8; 32],
}

/// A handshake result as values.
pub struct ResultView {
    pub tx: Seq<u8>,
    pub rx: Seq<u8>,
    pub handshake_hash: Seq<u8>,
    pub remote_public_key: Seq<u8>,
}

impl View for HandshakeResult {
    type V = ResultView;

    open spec fn view(&self) -> ResultView {
        ResultView {
            tx: self.tx@,
            rx: self.rx@,
            handshake_hash: self.handshake_hash@,
            remote_public_key: self.remote_public_key@,
        }
    }
}

/// The key pair of a seed.
pub fn keypair_from_seed(seed: &[u8; 32]) -> (k: Keypair)
    ensures
        k.public_key@ == ed25519_public(seed@),
        k.secret_key@ == seed@ + ed25519_public(seed@),
        keypair_valid(k),
{
    let pk = crate::crypto::public_key_of_seed(seed);
    let mut sk = [0u8; 64];
    let mut i: usize = 0;
    while i < 32
        invariant
            i <= 32,
            forall|j: int| 0 <= j < i ==> sk@[j] == seed@[j],
            forall|j: int| 32 <= j < 32 + i ==> sk@[j] == pk@[j - 32],
        decreases 32 - i,
    {
        sk[i] = seed[i];
        sk[32 + i] = pk[i];
        i = i + 1;
    }
    proof {
        assert(sk@ =~= seed@ + pk@);
        assert(sk@.subrange(0, 32) =~= seed@);
        assert(sk@.subrange(32, 64) =~= pk@);
    }
    Keypair { public_key: pk, secret_key: sk }
}

/// A key pair of a random seed.
pub fn generate_keypair() -> (k: Keypair)
    ensures
        keypair_valid(k),
{
    let seed = random_seed();
    keypair_from_seed(&seed)
}

/// An optional 32-byte key as bytes.
pub open spec fn opt32(o: Option<[u8; 32]>) -> Option<Seq<u8>> {
    match o {
        Some(k) => Some(k@),
        None => None,
    }
}

/// An optional result as values.
pub open spec fn opt_result(o: Option<HandshakeResult>) -> Option<ResultView> {
    match o {
        Some(r) => Some(r@),
        None => None,
    }
}

/// A handshake as values.
pub struct HsView {
    pub is_initiator: bool,
    pub step: u8,
    pub sym: SymView,
    pub s: Keypair,
    pub e: Option<Keypair>,
    pub re: Option<Seq<u8>>,
    pub rs: Option<Seq<u8>>,
    pub result: Option<ResultView>,
}

/// The ephemeral key a message uses: the one set, or a fresh one.
pub open spec fn eph(hs: HsView, fresh: Keypair) -> Keypair {
    match hs.e {
        Some(k) => k,
        None => fresh,
    }
}

/// `hs` with the symmetric state `st`.
pub open spec fn with_sym(hs: HsView, st: SymView) -> HsView {
    HsView { sym: st, ..hs }
}

/// The 48-byte encrypted static key, or 32 bytes without a cipher key.
pub open spec fn static_len(st: SymView) -> int {
    if st.key is Some { 48 } else { 32 }
}

// ── Noise XX ────────────────────────────────────────────────────────────────

/// Initiator, first message: `e`, then the empty payload.
pub open spec fn xx_send_m1(hs: HsView, fresh: Keypair) -> (HsView, Result<Seq<u8>, NoiseError>) {
    let e = eph(hs, fresh);
    let hs1 = HsView { sym: mix_hash_of(hs.sym, e.public_key@), e: Some(e), ..hs };
    match eah_of(hs1.sym, Seq::empty()) {
        Err(er) => (hs1, Err(er)),
        Ok((st, c)) => (HsView { sym: st, step: 1, ..hs1 }, Ok(e.public_key@ + c)),
    }
}

/// Responder, first message: `re`, then the empty payload.
pub open spec fn xx_recv_m1(hs: HsView, msg: Seq<u8>) -> (HsView, Result<Option<ResultView>, NoiseError>) {
    if msg.len() < 32 {
        (hs, Err(NoiseError::UnexpectedState))
    } else {
        let re = msg.subrange(0, 32);
        let hs1 = HsView { sym: mix_hash_of(hs.sym, re), re: Some(re), ..hs };
        match dah_of(hs1.sym, msg.subrange(32, msg.len() as int)) {
            Err(er) => (hs1, Err(er)),
            Ok((st, _p)) => (HsView { sym: st, step: 1, ..hs1 }, Ok(None)),
        }
    }
}

/// Responder, second message: `e, ee, s, es`, then the empty payload.
pub open spec fn xx_send_m2(hs: HsView, fresh: Keypair) -> (HsView, Result<Seq<u8>, NoiseError>) {
    match hs.re {
        None => (hs, Err(NoiseError::UnexpectedState)),
        Some(re) => {
            let e = eph(hs, fresh);
            let hs1 = HsView { sym: mix_hash_of(hs.sym, e.public_key@), e: None, ..hs };
            match dh_of(e.secret_key@, re) {
                None => (hs1, Err(NoiseError::InvalidPublicKey)),
                Some(d1) => {
                    let st2 = mix_key_of(hs1.sym, d1);
                    match eah_of(st2, hs.s.public_key@) {
                        Err(er) => (with_sym(hs1, st2), Err(er)),
                        Ok((st3, cs)) => match dh_of(hs.s.secret_key@, re) {
                            None => (with_sym(hs1, st3), Err(NoiseError::InvalidPublicKey)),
                            Some(d2) => {
                                let hs4 = HsView { sym: mix_key_of(st3, d2), e: Some(e), ..hs1 };
                                match eah_of(hs4.sym, Seq::empty()) {
                                    Err(er) => (hs4, Err(er)),
                                    Ok((st5, cp)) => (
                                        HsView { sym: st5, step: 2, ..hs4 },
                                        Ok(e.public_key@ + cs + cp),
                                    ),
                                }
                            },
                        },
                    }
                },
            }
        },
    }
}

/// Initiator, second message: `re, ee, rs, es`, then the empty payload.
pub open spec fn xx_recv_m2(hs: HsView, msg: Seq<u8>) -> (HsView, Result<Option<ResultView>, NoiseError>) {
    if msg.len() < 96 {
        (hs, Err(NoiseError::UnexpectedState))
    } else {
        match hs.e {
            None => (hs, Err(NoiseError::UnexpectedState)),
            Some(e) => {
                let re = msg.subrange(0, 32);
                let hs1 = HsView { sym: mix_hash_of(hs.sym, re), re: Some(re), ..hs };
                match dh_of(e.secret_key@, re) {
                    None => (hs1, Err(NoiseError::InvalidPublicKey)),
                    Some(d1) => {
                        let st2 = mix_key_of(hs1.sym, d1);
                        let len = static_len(st2);
                        match dah_of(st2, msg.subrange(32, 32 + len)) {
                            Err(er) => (with_sym(hs1, st2), Err(er)),
                            Ok((st3, rs)) => {
                                let hs3 = HsView { sym: st3, rs: Some(rs), ..hs1 };
                                match dh_of(e.secret_key@, rs) {
                                    None => (hs3, Err(NoiseError::InvalidPublicKey)),
                                    Some(d2) => {
                                        let st4 = mix_key_of(st3, d2);
                                        match dah_of(st4, msg.subrange(32 + len, msg.len() as int)) {
                                            Err(er) => (with_sym(hs3, st4), Err(er)),
                                            Ok((st5, _p)) => (HsView { sym: st5, step: 2, ..hs3 }, Ok(None)),
                                        }
                                    },
                                }
                            },
                        }
                    },
                }
            },
        }
    }
}

/// The zero key that stands for an unknown remote static key.
pub open spec fn rs_or_zero(rs: Option<Seq<u8>>) -> Seq<u8> {
    match rs {
        Some(k) => k,
        None => zeros(32),
    }
}

/// Initiator, third message: `s, se`, then the empty payload; the
/// handshake completes with the first session key for sending.
pub open spec fn xx_send_m3(hs: HsView) -> (HsView, Result<Seq<u8>, NoiseError>) {
    match hs.re {
        None => (hs, Err(NoiseError::UnexpectedState)),
        Some(re) => match eah_of(hs.sym, hs.s.public_key@) {
            Err(er) => (hs, Err(er)),
            Ok((st1, cs)) => match dh_of(hs.s.secret_key@, re) {
                None => (with_sym(hs, st1), Err(NoiseError::InvalidPublicKey)),
                Some(d) => {
                    let st2 = mix_key_of(st1, d);
                    match eah_of(st2, Seq::empty()) {
                        Err(er) => (with_sym(hs, st2), Err(er)),
                        Ok((st3, cp)) => {
                            let keys = split_of(st3);
                            let res = ResultView {
                                tx: keys.0,
                                rx: keys.1,
                                handshake_hash: st3.h,
                                remote_public_key: rs_or_zero(hs.rs),
                            };
                            (HsView { sym: st3, result: Some(res), step: 3, ..hs }, Ok(cs + cp))
                        },
                    }
                },
            },
        },
    }
}

/// Responder, third message: `rs, se`, then the empty payload; the
/// handshake completes with the second session key for sending.
pub open spec fn xx_recv_m3(hs: HsView, msg: Seq<u8>) -> (HsView, Result<Option<ResultView>, NoiseError>) {
    if msg.len() < 64 {
        (hs, Err(NoiseError::UnexpectedState))
    } else {
        match hs.e {
            None => (hs, Err(NoiseError::UnexpectedState)),
            Some(e) => {
                let len = static_len(hs.sym);
                match dah_of(hs.sym, msg.subrange(0, len)) {
                    Err(er) => (hs, Err(er)),
                    Ok((st1, rs)) => {
                        let hs1 = HsView { sym: st1, rs: Some(rs), ..hs };
                        match dh_of(e.secret_key@, rs) {
                            None => (hs1, Err(NoiseError::InvalidPublicKey)),
                            Some(d) => {
                                let st2 = mix_key_of(st1, d);
                                match dah_of(st2, msg.subrange(len, msg.len() as int)) {
                                    Err(er) => (with_sym(hs1, st2), Err(er)),
                                    Ok((st3, _p)) => {
                                        let keys = split_of(st3);
                                        let res = ResultView {
                                            tx: keys.1,
                                            rx: keys.0,
                                            handshake_hash: st3.h,
                                            remote_public_key: rs,
                                        };
                                        (HsView { sym: st3, result: Some(res), step: 3, ..hs1 }, Ok(Some(res)))
                                    },
                                }
                            },
                        }
                    },
                }
            },
        }
    }
}

/// The next message of an XX handshake, by role and step.
pub open spec fn xx_send(hs: HsView, fresh: Keypair) -> (HsView, Result<Seq<u8>, NoiseError>) {
    if hs.result is Some {
        (hs, Err(NoiseError::HandshakeComplete))
    } else if hs.is_initiator && hs.step == 0 {
        xx_send_m1(hs, fresh)
    } else if !hs.is_initiator && hs.step == 1 {
        xx_send_m2(hs, fresh)
    } else if hs.is_initiator && hs.step == 2 {
        xx_send_m3(hs)
    } else {
        (hs, Err(NoiseError::UnexpectedState))
    }
}

/// Whether sending next would generate an ephemeral key.
pub open spec fn xx_send_needs_fresh(hs: HsView) -> bool {
    &&& hs.result is None
    &&& hs.e is None
    &&& ((hs.is_initiator && hs.step == 0) || (!hs.is_initiator && hs.step == 1 && hs.re is Some))
}

/// Receiving the next message of an XX handshake, by role and step.
pub open spec fn xx_recv(hs: HsView, msg: Seq<u8>) -> (HsView, Result<Option<ResultView>, NoiseError>) {
    if hs.result is Some {
        (hs, Err(NoiseError::HandshakeComplete))
    } else if !hs.is_initiator && hs.step == 0 {
        xx_recv_m1(hs, msg)
    } else if hs.is_initiator && hs.step == 1 {
        xx_recv_m2(hs, msg)
    } else if !hs.is_initiator && hs.step == 2 {
        xx_recv_m3(hs, msg)
    } else {
        (hs, Err(NoiseError::UnexpectedState))
    }
}

/// The view of a receive result.
pub open spec fn res_result(r: Result<Option<HandshakeResult>, NoiseError>) -> Result<Option<ResultView>, NoiseError> {
    match r {
        Ok(o) => Ok(opt_result(o)),
        Err(e) => Err(e),
    }
}

/// Room in the cipher counter for the messages that remain.
pub open spec fn counter_room(hs: HsView) -> bool {
    hs.sym.n + 3 < u64::MAX
}

/// The bytes of `Noise_XX_Ed25519_ChaChaPoly_BLAKE2b`.
fn xx_name() -> (v: Vec<u8>)
    ensures
        v@ == xx_protocol_name(),
{
    let v: Vec<u8> = vec![
        78u8, 111, 105, 115, 101, 95, 88, 88, 95, 69, 100, 50, 53, 53, 49, 57, 95, 67, 104, 97, 67,
        104, 97, 80, 111, 108, 121, 95, 66, 76, 65, 75, 69, 50, 98,
    ];
    proof {
        assert(v@ =~= xx_protocol_name());
    }
    v
}

/// A Noise XX handshake. The initiator sends, receives and sends; the
/// responder receives, sends and receives; each completes on its third step.
pub struct Handshake {
    is_initiator: bool,
    step: u8,
    symmetric: SymmetricState,
    s: Keypair,
    e: Option<Keypair>,
    re: Option<[u8; 32]>,
    rs: Option<[u8; 32]>,
    result: Option<HandshakeResult>,
}

impl View for Handshake {
    type V = HsView;

    closed spec fn view(&self) -> HsView {
        HsView {
            is_initiator: self.is_initiator,
            step: self.step,
            sym: self.symmetric@,
            s: self.s,
            e: self.e,
            re: opt32(self.re),
            rs: opt32(self.rs),
            result: opt_result(self.result),
        }
    }
}

impl Handshake {
    /// A handshake with the static key pair `keypair`: the protocol name,
    /// then the empty prologue mixed into the hash.
    pub fn new(is_initiator: bool, keypair: Keypair) -> (h: Self)
        ensures
            h@ == (HsView {
                is_initiator,
                step: 0,
                sym: mix_hash_of(sym_init(xx_protocol_name()), Seq::empty()),
                s: keypair,
                e: None,
                re: None,
                rs: None,
                result: None,
            }),
    {
        let name = xx_name();
        let mut sym = SymmetricState::new(name.as_slice());
        let empty: Vec<u8> = Vec::new();
        sym.mix_hash(empty.as_slice());
        Handshake { is_initiator, step: 0, symmetric: sym, s: keypair, e: None, re: None, rs: None, result: None }
    }

    /// Sets the ephemeral key pair that the next message would generate.
    pub fn set_ephemeral(&mut self, keypair: Keypair)
        ensures
            final(self)@ == (HsView { e: Some(keypair), ..old(self)@ }),
    {
        self.e = Some(keypair);
    }

    /// Whether the handshake has completed.
    pub fn complete(&self) -> (r: bool)
        ensures
            r == self@.result is Some,
    {
        self.result.is_some()
    }

    /// The result, once the handshake has completed.
    pub fn result(&self) -> (r: Option<&HandshakeResult>)
        ensures
            match r {
                Some(x) => self@.result == Some(x@),
                None => self@.result is None,
            },
    {
        match &self.result {
            Some(x) => Some(x),
            None => None,
        }
    }

    /// The ephemeral key pair set, or a fresh one; none is left set.
    fn take_ephemeral(&mut self) -> (k: Keypair)
        ensures
            final(self)@ == (HsView { e: None, ..old(self)@ }),
            k == eph(old(self)@, k),
            old(self)@.e is None ==> keypair_valid(k),
    {
        match self.e.take() {
            Some(k) => k,
            None => generate_keypair(),
        }
    }

    /// Sends the next message.
    pub fn send(&mut self) -> (r: Result<Vec<u8>, NoiseError>)
        requires
            counter_room(old(self)@),
        ensures
            exists|fresh: Keypair|
                (xx_send_needs_fresh(old(self)@) ==> keypair_valid(fresh)) && (final(self)@, res_bytes(r))
                    == #[trigger] xx_send(old(self)@, fresh),
    {
        let ghost h0 = self@;
        if self.result.is_some() {
            let r = Err(NoiseError::HandshakeComplete);
            proof {
                assert((xx_send_needs_fresh(h0) ==> keypair_valid(h0.s)) && (self@, res_bytes(r)) == xx_send(h0, h0.s));
            }
            return r;
        }
        if self.is_initiator && self.step == 0 {
            let e = self.take_ephemeral();
            let r = self.initiator_send_m1(e);
            proof {
                assert((xx_send_needs_fresh(h0) ==> keypair_valid(e)) && (self@, res_bytes(r)) == xx_send(h0, e));
            }
            r
        } else if !self.is_initiator && self.step == 1 {
            if self.re.is_none() {
                let r = Err(NoiseError::UnexpectedState);
                proof {
                    assert((xx_send_needs_fresh(h0) ==> keypair_valid(h0.s)) && (self@, res_bytes(r)) == xx_send(h0, h0.s));
                }
                return r;
            }
            let e = self.take_ephemeral();
            let r = self.responder_send_m2(e);
            proof {
                assert((xx_send_needs_fresh(h0) ==> keypair_valid(e)) && (self@, res_bytes(r)) == xx_send(h0, e));
            }
            r
        } else if self.is_initiator && self.step == 2 {
            let r = self.initiator_send_m3();
            proof {
                assert((xx_send_needs_fresh(h0) ==> keypair_valid(h0.s)) && (self@, res_bytes(r)) == xx_send(h0, h0.s));
            }
            r
        } else {
            let r = Err(NoiseError::UnexpectedState);
            proof {
                assert((xx_send_needs_fresh(h0) ==> keypair_valid(h0.s)) && (self@, res_bytes(r)) == xx_send(h0, h0.s));
            }
            r
        }
    }

    /// Receives the next message: the result when it completes the handshake.
    pub fn recv(&mut self, message: &[u8]) -> (r: Result<Option<HandshakeResult>, NoiseError>)
        requires
            counter_room(old(self)@),
            message@.len() + 128 <= usize::MAX,
        ensures
            (final(self)@, res_result(r)) == xx_recv(old(self)@, message@),
    {
        if self.result.is_some() {
            return Err(NoiseError::HandshakeComplete);
        }
        if !self.is_initiator && self.step == 0 {
            self.responder_recv_m1(message)
        } else if self.is_initiator && self.step == 1 {
            self.initiator_recv_m2(message)
        } else if !self.is_initiator && self.step == 2 {
            self.responder_recv_m3(message)
        } else {
            Err(NoiseError::UnexpectedState)
        }
    }

    /// Initiator, first message, with the ephemeral key `e` taken out.
    fn initiator_send_m1(&mut self, e: Keypair) -> (r: Result<Vec<u8>, NoiseError>)
        requires
            old(self)@.e is None,
            counter_room(old(self)@),
        ensures
            (final(self)@, res_bytes(r)) == xx_send_m1(old(self)@, e),
    {
        self.symmetric.mix_hash(e.public_key.as_slice());
        let out = e.public_key;
        self.e = Some(e);
        let empty: Vec<u8> = Vec::new();
        match self.symmetric.encrypt_and_hash(empty.as_slice()) {
            Err(er) => Err(er),
            Ok(c) => {
                self.step = 1;
                let mut message: Vec<u8> = Vec::new();
                push_all(&mut message, out.as_slice());
                push_all(&mut message, c.as_slice());
                Ok(message)
            },
        }
    }

    /// Responder, first message.
    fn responder_recv_m1(&mut self, message: &[u8]) -> (r: Result<Option<HandshakeResult>, NoiseError>)
        requires
            counter_room(old(self)@),
            message@.len() + 128 <= usize::MAX,
        ensures
            (final(self)@, res_result(r)) == xx_recv_m1(old(self)@, message@),
    {
        if message.len() < 32 {
            return Err(NoiseError::UnexpectedState);
        }
        let re = array32(message, 0);
        self.symmetric.mix_hash(re.as_slice());
        self.re = Some(re);
        let rest = crate::secretstream::slice_vec(message, 32, message.len());
        match self.symmetric.decrypt_and_hash(rest.as_slice()) {
            Err(er) => Err(er),
            Ok(_p) => {
                self.step = 1;
                Ok(None)
            },
        }
    }

    /// Responder, second message, with the ephemeral key `e` taken out.
    fn responder_send_m2(&mut self, e: Keypair) -> (r: Result<Vec<u8>, NoiseError>)
        requires
            old(self)@.e is None,
            old(self)@.re is Some,
            counter_room(old(self)@),
        ensures
            (final(self)@, res_bytes(r)) == xx_send_m2(old(self)@, e),
    {
        let re = match self.re {
            Some(x) => x,
            None => {
                return Err(NoiseError::UnexpectedState);
            },
        };
        self.symmetric.mix_hash(e.public_key.as_slice());
        let mut message: Vec<u8> = Vec::new();
        push_all(&mut message, e.public_key.as_slice());
        let dh_ee = match ed25519_dh(&e.secret_key, &re) {
            Ok(x) => x,
            Err(er) => {
                return Err(er);
            },
        };
        self.symmetric.mix_key(&dh_ee);
        let s_pub = self.s.public_key;
        let enc_s = match self.symmetric.encrypt_and_hash(s_pub.as_slice()) {
            Ok(c) => c,
            Err(er) => {
                return Err(er);
            },
        };
        push_all(&mut message, enc_s.as_slice());
        let dh_es = match ed25519_dh(&self.s.secret_key, &re) {
            Ok(x) => x,
            Err(er) => {
                return Err(er);
            },
        };
        self.symmetric.mix_key(&dh_es);
        self.e = Some(e);
        let empty: Vec<u8> = Vec::new();
        let enc_payload = match self.symmetric.encrypt_and_hash(empty.as_slice()) {
            Ok(c) => c,
            Err(er) => {
                return Err(er);
            },
        };
        push_all(&mut message, enc_payload.as_slice());
        self.step = 2;
        Ok(message)
    }

    /// Initiator, second message.
    fn initiator_recv_m2(&mut self, message: &[u8]) -> (r: Result<Option<HandshakeResult>, NoiseError>)
        requires
            counter_room(old(self)@),
            message@.len() + 128 <= usize::MAX,
        ensures
            (final(self)@, res_result(r)) == xx_recv_m2(old(self)@, message@),
    {
        if message.len() < 96 {
            return Err(NoiseError::UnexpectedState);
        }
        let e_secret = match &self.e {
            Some(k) => k.secret_key,
            None => {
                return Err(NoiseError::UnexpectedState);
            },
        };
        let re = array32(message, 0);
        self.symmetric.mix_hash(re.as_slice());
        self.re = Some(re);
        let dh_ee = match ed25519_dh(&e_secret, &re) {
            Ok(x) => x,
            Err(er) => {
                return Err(er);
            },
        };
        self.symmetric.mix_key(&dh_ee);
        let enc_s_len: usize = if self.symmetric.has_key() { 48 } else { 32 };
        if message.len() < 32 + enc_s_len {
            return Err(NoiseError::UnexpectedState);
        }
        let enc_s = crate::secretstream::slice_vec(message, 32, 32 + enc_s_len);
        let rs_bytes = match self.symmetric.decrypt_and_hash(enc_s.as_slice()) {
            Ok(p) => p,
            Err(er) => {
                return Err(er);
            },
        };
        let rs = array32(rs_bytes.as_slice(), 0);
        proof {
            assert(rs@ =~= rs_bytes@);
        }
        self.rs = Some(rs);
        let dh_es = match ed25519_dh(&e_secret, &rs) {
            Ok(x) => x,
            Err(er) => {
                return Err(er);
            },
        };
        self.symmetric.mix_key(&dh_es);
        let rest = crate::secretstream::slice_vec(message, 32 + enc_s_len, message.len());
        match self.symmetric.decrypt_and_hash(rest.as_slice()) {
            Err(er) => Err(er),
            Ok(_p) => {
                self.step = 2;
                Ok(None)
            },
        }
    }

    /// Initiator, third message; completes the handshake.
    fn initiator_send_m3(&mut self) -> (r: Result<Vec<u8>, NoiseError>)
        requires
            counter_room(old(self)@),
        ensures
            (final(self)@, res_bytes(r)) == xx_send_m3(old(self)@),
    {
        let re = match self.re {
            Some(x) => x,
            None => {
                return Err(NoiseError::UnexpectedState);
            },
        };
        let s_pub = self.s.public_key;
        let enc_s = match self.symmetric.encrypt_and_hash(s_pub.as_slice()) {
            Ok(c) => c,
            Err(er) => {
                return Err(er);
            },
        };
        let dh_se = match ed25519_dh(&self.s.secret_key, &re) {
            Ok(x) => x,
            Err(er) => {
                return Err(er);
            },
        };
        self.symmetric.mix_key(&dh_se);
        let empty: Vec<u8> = Vec::new();
        let enc_payload = match self.symmetric.encrypt_and_hash(empty.as_slice()) {
            Ok(c) => c,
            Err(er) => {
                return Err(er);
            },
        };
        let mut message: Vec<u8> = Vec::new();
        push_all(&mut message, enc_s.as_slice());
        push_all(&mut message, enc_payload.as_slice());
        let (k1, k2) = self.symmetric.split();
        let remote = match self.rs {
            Some(k) => k,
            None => [0u8; 32],
        };
        proof {
            assert(remote@ =~= rs_or_zero(opt32(self.rs)));
        }
        self.result = Some(HandshakeResult {
            tx: k1,
            rx: k2,
            handshake_hash: self.symmetric.get_handshake_hash(),
            remote_public_key: remote,
        });
        self.step = 3;
        Ok(message)
    }

    /// Responder, third message; completes the handshake.
    fn responder_recv_m3(&mut self, message: &[u8]) -> (r: Result<Option<HandshakeResult>, NoiseError>)
        requires
            counter_room(old(self)@),
            message@.len() + 128 <= usize::MAX,
        ensures
            (final(self)@, res_result(r)) == xx_recv_m3(old(self)@, message@),
    {
        if message.len() < 64 {
            return Err(NoiseError::UnexpectedState);
        }
        let e_secret = match &self.e {
            Some(k) => k.secret_key,
            None => {
                return Err(NoiseError::UnexpectedState);
            },
        };
        let enc_s_len: usize = if self.symmetric.has_key() { 48 } else { 32 };
        let enc_s = crate::secretstream::slice_vec(message, 0, enc_s_len);
        let rs_bytes = match self.symmetric.decrypt_and_hash(enc_s.as_slice()) {
            Ok(p) => p,
            Err(er) => {
                return Err(er);
            },
        };
        let rs = array32(rs_bytes.as_slice(), 0);
        proof {
            assert(rs@ =~= rs_bytes@);
        }
        self.rs = Some(rs);
        let dh_se = match ed25519_dh(&e_secret, &rs) {
            Ok(x) => x,
            Err(er) => {
                return Err(er);
            },
        };
        self.symmetric.mix_key(&dh_se);
        let rest = crate::secretstream::slice_vec(message, enc_s_len, message.len());
        match self.symmetric.decrypt_and_hash(rest.as_slice()) {
            Err(er) => Err(er),
            Ok(_p) => {
                let (k1, k2) = self.symmetric.split();
                let hh = self.symmetric.get_handshake_hash();
                self.result = Some(HandshakeResult { tx: k2, rx: k1, handshake_hash: hh, remote_public_key: rs });
                self.step = 3;
                Ok(Some(HandshakeResult { tx: k2, rx: k1, handshake_hash: hh, remote_public_key: rs }))
            },
        }
    }
}

// ── Noise IK ────────────────────────────────────────────────────────────────

/// The state an IK handshake starts from: the protocol name, the prologue
/// and the responder's static key mixed into the hash.
pub open spec fn ik_start(prologue: Seq<u8>, responder_static: Seq<u8>) -> SymView {
    mix_hash_of(mix_hash_of(sym_init(ik_protocol_name()), prologue), responder_static)
}

/// Initiator, first message: `e, es, s, ss`, then the payload.
pub open spec fn ik_send_m1(hs: HsView, fresh: Keypair, payload: Seq<u8>) -> (HsView, Result<Seq<u8>, NoiseError>) {
    match hs.rs {
        None => (hs, Err(NoiseError::UnexpectedState)),
        Some(rs) => {
            let e = eph(hs, fresh);
            let hs1 = HsView { sym: mix_hash_of(hs.sym, e.public_key@), e: None, ..hs };
            match dh_of(e.secret_key@, rs) {
                None => (hs1, Err(NoiseError::InvalidPublicKey)),
                Some(d1) => {
                    let st2 = mix_key_of(hs1.sym, d1);
                    match eah_of(st2, hs.s.public_key@) {
                        Err(er) => (with_sym(hs1, st2), Err(er)),
                        Ok((st3, cs)) => match dh_of(hs.s.secret_key@, rs) {
                            None => (with_sym(hs1, st3), Err(NoiseError::InvalidPublicKey)),
                            Some(d2) => {
                                let hs4 = HsView { sym: mix_key_of(st3, d2), e: Some(e), ..hs1 };
                                match eah_of(hs4.sym, payload) {
                                    Err(er) => (hs4, Err(er)),
                                    Ok((st5, cp)) => (
                                        HsView { sym: st5, step: 1, ..hs4 },
                                        Ok(e.public_key@ + cs + cp),
                                    ),
                                }
                            },
                        },
                    }
                },
            }
        },
    }
}

/// Responder, first message: `re, es, rs, ss`, then the payload, which it
/// returns.
pub open spec fn ik_recv_m1(hs: HsView, msg: Seq<u8>) -> (HsView, Result<Seq<u8>, NoiseError>) {
    if msg.len() < 96 {
        (hs, Err(NoiseError::UnexpectedState))
    } else {
        let re = msg.subrange(0, 32);
        let hs1 = HsView { sym: mix_hash_of(hs.sym, re), re: Some(re), ..hs };
        match dh_of(hs.s.secret_key@, re) {
            None => (hs1, Err(NoiseError::InvalidPublicKey)),
            Some(d1) => {
                let st2 = mix_key_of(hs1.sym, d1);
                let len = static_len(st2);
                if msg.len() < 32 + len {
                    (with_sym(hs1, st2), Err(NoiseError::UnexpectedState))
                } else {
                    match dah_of(st2, msg.subrange(32, 32 + len)) {
                        Err(er) => (with_sym(hs1, st2), Err(er)),
                        Ok((st3, rs)) => {
                            let hs3 = HsView { sym: st3, rs: Some(rs), ..hs1 };
                            match dh_of(hs.s.secret_key@, rs) {
                                None => (hs3, Err(NoiseError::InvalidPublicKey)),
                                Some(d2) => {
                                    let st4 = mix_key_of(st3, d2);
                                    match dah_of(st4, msg.subrange(32 + len, msg.len() as int)) {
                                        Err(er) => (with_sym(hs3, st4), Err(er)),
                                        Ok((st5, p)) => (HsView { sym: st5, step: 1, ..hs3 }, Ok(p)),
                                    }
                                },
                            }
                        },
                    }
                }
            },
        }
    }
}

/// Responder, second message: `e, ee, se`, then the payload; the handshake
/// completes with the second session key for sending.
pub open spec fn ik_send_m2(hs: HsView, fresh: Keypair, payload: Seq<u8>) -> (HsView, Result<Seq<u8>, NoiseError>) {
    match (hs.re, hs.rs) {
        (Some(re), Some(rs)) => {
            let e = eph(hs, fresh);
            let hs1 = HsView { sym: mix_hash_of(hs.sym, e.public_key@), e: None, ..hs };
            match dh_of(e.secret_key@, re) {
                None => (hs1, Err(NoiseError::InvalidPublicKey)),
                Some(d1) => {
                    let st2 = mix_key_of(hs1.sym, d1);
                    match dh_of(e.secret_key@, rs) {
                        None => (with_sym(hs1, st2), Err(NoiseError::InvalidPublicKey)),
                        Some(d2) => {
                            let hs3 = HsView { sym: mix_key_of(st2, d2), e: Some(e), ..hs1 };
                            match eah_of(hs3.sym, payload) {
                                Err(er) => (hs3, Err(er)),
                                Ok((st4, cp)) => {
                                    let keys = split_of(st4);
                                    let res = ResultView {
                                        tx: keys.1,
                                        rx: keys.0,
                                        handshake_hash: st4.h,
                                        remote_public_key: rs,
                                    };
                                    (HsView { sym: st4, result: Some(res), step: 2, ..hs3 }, Ok(e.public_key@ + cp))
                                },
                            }
                        },
                    }
                },
            }
        },
        _ => (hs, Err(NoiseError::UnexpectedState)),
    }
}

/// Initiator, second message: `re, ee, se`, then the payload, which it
/// returns; the handshake completes with the first session key for sending.
pub open spec fn ik_recv_m2(hs: HsView, msg: Seq<u8>) -> (HsView, Result<Seq<u8>, NoiseError>) {
    if msg.len() < 48 {
        (hs, Err(NoiseError::UnexpectedState))
    } else {
        match hs.e {
            None => (hs, Err(NoiseError::UnexpectedState)),
            Some(e) => {
                let re = msg.subrange(0, 32);
                let hs1 = HsView { sym: mix_hash_of(hs.sym, re), re: Some(re), ..hs };
                match dh_of(e.secret_key@, re) {
                    None => (hs1, Err(NoiseError::InvalidPublicKey)),
                    Some(d1) => {
                        let st2 = mix_key_of(hs1.sym, d1);
                        match dh_of(hs.s.secret_key@, re) {
                            None => (with_sym(hs1, st2), Err(NoiseError::InvalidPublicKey)),
                            Some(d2) => {
                                let st3 = mix_key_of(st2, d2);
                                match dah_of(st3, msg.subrange(32, msg.len() as int)) {
                                    Err(er) => (with_sym(hs1, st3), Err(er)),
                                    Ok((st4, p)) => {
                                        let keys = split_of(st4);
                                        let res = ResultView {
                                            tx: keys.0,
                                            rx: keys.1,
                                            handshake_hash: st4.h,
                                            remote_public_key: rs_or_zero(hs.rs),
                                        };
                                        (HsView { sym: st4, result: Some(res), step: 2, ..hs1 }, Ok(p))
                                    },
                                }
                            },
                        }
                    },
                }
            },
        }
    }
}

/// The next message of an IK handshake, by role and step.
pub open spec fn ik_send(hs: HsView, fresh: Keypair, payload: Seq<u8>) -> (HsView, Result<Seq<u8>, NoiseError>) {
    if hs.result is Some {
        (hs, Err(NoiseError::HandshakeComplete))
    } else if hs.is_initiator && hs.step == 0 {
        ik_send_m1(hs, fresh, payload)
    } else if !hs.is_initiator && hs.step == 1 {
        ik_send_m2(hs, fresh, payload)
    } else {
        (hs, Err(NoiseError::UnexpectedState))
    }
}

/// Whether sending next would generate an ephemeral key.
pub open spec fn ik_send_needs_fresh(hs: HsView) -> bool {
    &&& hs.result is None
    &&& hs.e is None
    &&& hs.rs is Some
    &&& ((hs.is_initiator && hs.step == 0) || (!hs.is_initiator && hs.step == 1 && hs.re is Some))
}

/// Receiving the next message of an IK handshake, by role and step.
pub open spec fn ik_recv(hs: HsView, msg: Seq<u8>) -> (HsView, Result<Seq<u8>, NoiseError>) {
    if hs.result is Some {
        (hs, Err(NoiseError::HandshakeComplete))
    } else if !hs.is_initiator && hs.step == 0 {
        ik_recv_m1(hs, msg)
    } else if hs.is_initiator && hs.step == 1 {
        ik_recv_m2(hs, msg)
    } else {
        (hs, Err(NoiseError::UnexpectedState))
    }
}

/// The bytes of `Noise_IK_Ed25519_ChaChaPoly_BLAKE2b`.
fn ik_name() -> (v: Vec<u8>)
    ensures
        v@ == ik_protocol_name(),
{
    let v: Vec<u8> = vec![
        78u8, 111, 105, 115, 101, 95, 73, 75, 95, 69, 100, 50, 53, 53, 49, 57, 95, 67, 104, 97, 67,
        104, 97, 80, 111, 108, 121, 95, 66, 76, 65, 75, 69, 50, 98,
    ];
    proof {
        assert(v@ =~= ik_protocol_name());
    }
    v
}

/// A Noise IK handshake, where the initiator knows the responder's static
/// key: the initiator sends then receives, the responder receives then
/// sends, each message with a payload.
pub struct HandshakeIK {
    is_initiator: bool,
    step: u8,
    symmetric: SymmetricState,
    s: Keypair,
    e: Option<Keypair>,
    re: Option<[u8; 32]>,
    rs: Option<[u8; 32]>,
    result: Option<HandshakeResult>,
}

impl View for HandshakeIK {
    type V = HsView;

    closed spec fn view(&self) -> HsView {
        HsView {
            is_initiator: self.is_initiator,
            step: self.step,
            sym: self.symmetric@,
            s: self.s,
            e: self.e,
            re: opt32(self.re),
            rs: opt32(self.rs),
            result: opt_result(self.result),
        }
    }
}

impl HandshakeIK {
    /// An initiator that knows the responder's static key.
    pub fn new_initiator(keypair: Keypair, remote_static: [u8; 32], prologue: &[u8]) -> (h: Self)
        requires
            prologue@.len() + 64 <= usize::MAX,
        ensures
            h@ == (HsView {
                is_initiator: true,
                step: 0,
                sym: ik_start(prologue@, remote_static@),
                s: keypair,
                e: None,
                re: None,
                rs: Some(remote_static@),
                result: None,
            }),
    {
        let name = ik_name();
        let mut sym = SymmetricState::new(name.as_slice());
        sym.mix_hash(prologue);
        sym.mix_hash(remote_static.as_slice());
        HandshakeIK {
            is_initiator: true,
            step: 0,
            symmetric: sym,
            s: keypair,
            e: None,
            re: None,
            rs: Some(remote_static),
            result: None,
        }
    }

    /// A responder, which learns the initiator's static key from its message.
    pub fn new_responder(keypair: Keypair, prologue: &[u8]) -> (h: Self)
        requires
            prologue@.len() + 64 <= usize::MAX,
        ensures
            h@ == (HsView {
                is_initiator: false,
                step: 0,
                sym: ik_start(prologue@, keypair.public_key@),
                s: keypair,
                e: None,
                re: None,
                rs: None,
                result: None,
            }),
    {
        let name = ik_name();
        let mut sym = SymmetricState::new(name.as_slice());
        sym.mix_hash(prologue);
        sym.mix_hash(keypair.public_key.as_slice());
        HandshakeIK { is_initiator: false, step: 0, symmetric: sym, s: keypair, e: None, re: None, rs: None, result: None }
    }

    /// Sets the ephemeral key pair that the next message would generate.
    pub fn set_ephemeral(&mut self, keypair: Keypair)
        ensures
            final(self)@ == (HsView { e: Some(keypair), ..old(self)@ }),
    {
        self.e = Some(keypair);
    }

    /// Whether the handshake has completed.
    pub fn complete(&self) -> (r: bool)
        ensures
            r == self@.result is Some,
    {
        self.result.is_some()
    }

    /// The result, once the handshake has completed.
    pub fn result(&self) -> (r: Option<&HandshakeResult>)
        ensures
            match r {
                Some(x) => self@.result == Some(x@),
                None => self@.result is None,
            },
    {
        match &self.result {
            Some(x) => Some(x),
            None => None,
        }
    }

    /// The remote static key, once known.
    pub fn remote_static_key(&self) -> (r: Option<&[u8; 32]>)
        ensures
            match r {
                Some(k) => self@.rs == Some(k@),
                None => self@.rs is None,
            },
    {
        match &self.rs {
            Some(k) => Some(k),
            None => None,
        }
    }

    /// The ephemeral key pair set, or a fresh one; none is left set.
    fn take_ephemeral(&mut self) -> (k: Keypair)
        ensures
            final(self)@ == (HsView { e: None, ..old(self)@ }),
            k == eph(old(self)@, k),
            old(self)@.e is None ==> keypair_valid(k),
    {
        match self.e.take() {
            Some(k) => k,
            None => generate_keypair(),
        }
    }

    /// Sends the next message with `payload`.
    pub fn send(&mut self, payload: &[u8]) -> (r: Result<Vec<u8>, NoiseError>)
        requires
            counter_room(old(self)@),
            payload@.len() + 128 <= usize::MAX,
        ensures
            exists|fresh: Keypair|
                (ik_send_needs_fresh(old(self)@) ==> keypair_valid(fresh)) && (final(self)@, res_bytes(r))
                    == #[trigger] ik_send(old(self)@, fresh, payload@),
    {
        let ghost h0 = self@;
        if self.result.is_some() {
            let r = Err(NoiseError::HandshakeComplete);
            proof {
                assert((ik_send_needs_fresh(h0) ==> keypair_valid(h0.s)) && (self@, res_bytes(r)) == ik_send(h0, h0.s, payload@));
            }
            return r;
        }
        if self.is_initiator && self.step == 0 {
            let rs = match self.rs {
                Some(k) => k,
                None => {
                    let r = Err(NoiseError::UnexpectedState);
                    proof {
                        assert((ik_send_needs_fresh(h0) ==> keypair_valid(h0.s)) && (self@, res_bytes(r)) == ik_send(h0, h0.s, payload@));
                    }
                    return r;
                },
            };
            let e = self.take_ephemeral();
            let r = self.initiator_send_m1(e, rs, payload);
            proof {
                assert((ik_send_needs_fresh(h0) ==> keypair_valid(e)) && (self@, res_bytes(r)) == ik_send(h0, e, payload@));
            }
            r
        } else if !self.is_initiator && self.step == 1 {
            let (re, rs) = match (self.re, self.rs) {
                (Some(a), Some(b)) => (a, b),
                _ => {
                    let r = Err(NoiseError::UnexpectedState);
                    proof {
                        assert((ik_send_needs_fresh(h0) ==> keypair_valid(h0.s)) && (self@, res_bytes(r)) == ik_send(h0, h0.s, payload@));
                    }
                    return r;
                },
            };
            let e = self.take_ephemeral();
            let r = self.responder_send_m2(e, re, rs, payload);
            proof {
                assert((ik_send_needs_fresh(h0) ==> keypair_valid(e)) && (self@, res_bytes(r)) == ik_send(h0, e, payload@));
            }
            r
        } else {
            let r = Err(NoiseError::UnexpectedState);
            proof {
                assert((ik_send_needs_fresh(h0) ==> keypair_valid(h0.s)) && (self@, res_bytes(r)) == ik_send(h0, h0.s, payload@));
            }
            r
        }
    }

    /// Receives the next message: its payload.
    pub fn recv(&mut self, message: &[u8]) -> (r: Result<Vec<u8>, NoiseError>)
        requires
            counter_room(old(self)@),
            message@.len() + 128 <= usize::MAX,
        ensures
            (final(self)@, res_bytes(r)) == ik_recv(old(self)@, message@),
    {
        if self.result.is_some() {
            return Err(NoiseError::HandshakeComplete);
        }
        if !self.is_initiator && self.step == 0 {
            self.responder_recv_m1(message)
        } else if self.is_initiator && self.step == 1 {
            self.initiator_recv_m2(message)
        } else {
            Err(NoiseError::UnexpectedState)
        }
    }

    /// Initiator, first message, with the ephemeral key `e` taken out.
    fn initiator_send_m1(&mut self, e: Keypair, rs: [u8; 32], payload: &[u8]) -> (r: Result<Vec<u8>, NoiseError>)
        requires
            old(self)@.e is None,
            old(self)@.rs == Some(rs@),
            counter_room(old(self)@),
            payload@.len() + 128 <= usize::MAX,
        ensures
            (final(self)@, res_bytes(r)) == ik_send_m1(old(self)@, e, payload@),
    {
        self.symmetric.mix_hash(e.public_key.as_slice());
        let mut message: Vec<u8> = Vec::new();
        push_all(&mut message, e.public_key.as_slice());
        let dh_es = match ed25519_dh(&e.secret_key, &rs) {
            Ok(x) => x,
            Err(er) => {
                return Err(er);
            },
        };
        self.symmetric.mix_key(&dh_es);
        let s_pub = self.s.public_key;
        let enc_s = match self.symmetric.encrypt_and_hash(s_pub.as_slice()) {
            Ok(c) => c,
            Err(er) => {
                return Err(er);
            },
        };
        push_all(&mut message, enc_s.as_slice());
        let dh_ss = match ed25519_dh(&self.s.secret_key, &rs) {
            Ok(x) => x,
            Err(er) => {
                return Err(er);
            },
        };
        self.symmetric.mix_key(&dh_ss);
        self.e = Some(e);
        let enc_payload = match self.symmetric.encrypt_and_hash(payload) {
            Ok(c) => c,
            Err(er) => {
                return Err(er);
            },
        };
        push_all(&mut message, enc_payload.as_slice());
        self.step = 1;
        Ok(message)
    }

    /// Responder, first message.
    fn responder_recv_m1(&mut self, message: &[u8]) -> (r: Result<Vec<u8>, NoiseError>)
        requires
            counter_room(old(self)@),
            message@.len() + 128 <= usize::MAX,
        ensures
            (final(self)@, res_bytes(r)) == ik_recv_m1(old(self)@, message@),
    {
        if message.len() < 96 {
            return Err(NoiseError::UnexpectedState);
        }
        let re = array32(message, 0);
        self.symmetric.mix_hash(re.as_slice());
        self.re = Some(re);
        let dh_es = match ed25519_dh(&self.s.secret_key, &re) {
            Ok(x) => x,
            Err(er) => {
                return Err(er);
            },
        };
        self.symmetric.mix_key(&dh_es);
        let enc_s_len: usize = if self.symmetric.has_key() { 48 } else { 32 };
        if message.len() < 32 + enc_s_len {
            return Err(NoiseError::UnexpectedState);
        }
        let enc_s = crate::secretstream::slice_vec(message, 32, 32 + enc_s_len);
        let rs_bytes = match self.symmetric.decrypt_and_hash(enc_s.as_slice()) {
            Ok(p) => p,
            Err(er) => {
                return Err(er);
            },
        };
        let rs = array32(rs_bytes.as_slice(), 0);
        proof {
            assert(rs@ =~= rs_bytes@);
        }
        self.rs = Some(rs);
        let dh_ss = match ed25519_dh(&self.s.secret_key, &rs) {
            Ok(x) => x,
            Err(er) => {
                return Err(er);
            },
        };
        self.symmetric.mix_key(&dh_ss);
        let rest = crate::secretstream::slice_vec(message, 32 + enc_s_len, message.len());
        match self.symmetric.decrypt_and_hash(rest.as_slice()) {
            Err(er) => Err(er),
            Ok(p) => {
                self.step = 1;
                Ok(p)
            },
        }
    }

    /// Responder, second message, with the ephemeral key `e` taken out.
    fn responder_send_m2(&mut self, e: Keypair, re: [u8; 32], rs: [u8; 32], payload: &[u8]) -> (r: Result<Vec<u8>, NoiseError>)
        requires
            old(self)@.e is None,
            old(self)@.re == Some(re@),
            old(self)@.rs == Some(rs@),
            counter_room(old(self)@),
            payload@.len() + 128 <= usize::MAX,
        ensures
            (final(self)@, res_bytes(r)) == ik_send_m2(old(self)@, e, payload@),
    {
        self.symmetric.mix_hash(e.public_key.as_slice());
        let mut message: Vec<u8> = Vec::new();
        push_all(&mut message, e.public_key.as_slice());
        let dh_ee = match ed25519_dh(&e.secret_key, &re) {
            Ok(x) => x,
            Err(er) => {
                return Err(er);
            },
        };
        self.symmetric.mix_key(&dh_ee);
        let dh_se = match ed25519_dh(&e.secret_key, &rs) {
            Ok(x) => x,
            Err(er) => {
                return Err(er);
            },
        };
        self.symmetric.mix_key(&dh_se);
        self.e = Some(e);
        let enc_payload = match self.symmetric.encrypt_and_hash(payload) {
            Ok(c) => c,
            Err(er) => {
                return Err(er);
            },
        };
        push_all(&mut message, enc_payload.as_slice());
        let (k1, k2) = self.symmetric.split();
        self.result = Some(HandshakeResult {
            tx: k2,
            rx: k1,
            handshake_hash: self.symmetric.get_handshake_hash(),
            remote_public_key: rs,
        });
        self.step = 2;
        Ok(message)
    }

    /// Initiator, second message.
    fn initiator_recv_m2(&mut self, message: &[u8]) -> (r: Result<Vec<u8>, NoiseError>)
        requires
            counter_room(old(self)@),
            message@.len() + 128 <= usize::MAX,
        ensures
            (final(self)@, res_bytes(r)) == ik_recv_m2(old(self)@, message@),
    {
        if message.len() < 48 {
            return Err(NoiseError::UnexpectedState);
        }
        let e_secret = match &self.e {
            Some(k) => k.secret_key,
            None => {
                return Err(NoiseError::UnexpectedState);
            },
        };
        let re = array32(message, 0);
        self.symmetric.mix_hash(re.as_slice());
        self.re = Some(re);
        let dh_ee = match ed25519_dh(&e_secret, &re) {
            Ok(x) => x,
            Err(er) => {
                return Err(er);
            },
        };
        self.symmetric.mix_key(&dh_ee);
        let dh_se = match ed25519_dh(&self.s.secret_key, &re) {
            Ok(x) => x,
            Err(er) => {
                return Err(er);
            },
        };
        self.symmetric.mix_key(&dh_se);
        let rest = crate::secretstream::slice_vec(message, 32, message.len());
        match self.symmetric.decrypt_and_hash(rest.as_slice()) {
            Err(er) => Err(er),
            Ok(p) => {
                let (k1, k2) = self.symmetric.split();
                let remote = match self.rs {
                    Some(k) => k,
                    None => [0u8; 32],
                };
                proof {
                    assert(remote@ =~= rs_or_zero(opt32(self.rs)));
                }
                self.result = Some(HandshakeResult {
                    tx: k1,
                    rx: k2,
                    handshake_hash: self.symmetric.get_handshake_hash(),
                    remote_public_key: remote,
                });
                self.step = 2;
                Ok(p)
            },
        }
    }
}

// ── Laws ────────────────────────────────────────────────────────────────────

/// Once a handshake has completed, sending and receiving fail with
/// `HandshakeComplete` and leave it as it is, in XX and in IK.
pub proof fn lemma_completed_handshake_is_final(hs: HsView, fresh: Keypair, payload: Seq<u8>, msg: Seq<u8>)
    requires
        hs.result is Some,
    ensures
        xx_send(hs, fresh) == (hs, Err::<Seq<u8>, NoiseError>(NoiseError::HandshakeComplete)),
        xx_recv(hs, msg) == (hs, Err::<Option<ResultView>, NoiseError>(NoiseError::HandshakeComplete)),
        ik_send(hs, fresh, payload) == (hs, Err::<Seq<u8>, NoiseError>(NoiseError::HandshakeComplete)),
        ik_recv(hs, msg) == (hs, Err::<Seq<u8>, NoiseError>(NoiseError::HandshakeComplete)),
{
}

/// In an XX handshake that has not completed, a step that succeeds moves
/// it one step on, and completes it exactly when that is its third step; a
/// step that fails neither moves it on nor completes it.
pub proof fn lemma_xx_step_progress(hs: HsView, fresh: Keypair, msg: Seq<u8>)
    requires
        hs.result is None,
    ensures
        ({
            let (h2, r) = xx_send(hs, fresh);
            &&& r is Ok ==> h2.step == hs.step + 1 && (h2.result is Some <==> h2.step == 3)
            &&& r is Err ==> h2.step == hs.step && h2.result is None
        }),
        ({
            let (h2, r) = xx_recv(hs, msg);
            &&& r is Ok ==> h2.step == hs.step + 1 && (h2.result is Some <==> h2.step == 3)
            &&& r is Err ==> h2.step == hs.step && h2.result is None
            &&& r matches Ok(o) ==> o == h2.result
        }),
{
}

/// In an IK handshake that has not completed, a step that succeeds moves
/// it one step on, and completes it exactly when that is its second step; a
/// step that fails neither moves it on nor completes it.
pub proof fn lemma_ik_step_progress(hs: HsView, fresh: Keypair, payload: Seq<u8>, msg: Seq<u8>)
    requires
        hs.result is None,
    ensures
        ({
            let (h2, r) = ik_send(hs, fresh, payload);
            &&& r is Ok ==> h2.step == hs.step + 1 && (h2.result is Some <==> h2.step == 2)
            &&& r is Err ==> h2.step == hs.step && h2.result is None
        }),
        ({
            let (h2, r) = ik_recv(hs, msg);
            &&& r is Ok ==> h2.step == hs.step + 1 && (h2.result is Some <==> h2.step == 2)
            &&& r is Err ==> h2.step == hs.step && h2.result is None
        }),
{
}

/// Byte `k` of the `n` little-endian bytes of `v` is digit `k` of `v` in base 256.
proof fn lemma_le_byte_at(v: nat, n: nat, k: nat)
    requires
        k < n,
    ensures
        le_bytes(v, n).len() == n,
        le_bytes(v, n)[k as int] == ((v / crate::compact_encoding::pow256(k)) % 256) as u8,
    decreases n,
{
    crate::compact_encoding::lemma_le_bytes_len(v, n);
    if k < n - 1 {
        lemma_le_byte_at(v, (n - 1) as nat, k);
    }
}

/// The nonce of counter `n` is twelve bytes: four zero bytes, then the
/// eight base-256 digits of `n`, least significant first.
pub proof fn lemma_nonce_layout(n: nat)
    ensures
        nonce_bytes(n).len() == 12,
        forall|k: int| 0 <= k < 4 ==> #[trigger] nonce_bytes(n)[k] == 0u8,
        forall|k: int| 0 <= k < 8 ==> #[trigger] nonce_bytes(n)[4 + k] == ((n / crate::compact_encoding::pow256(k as nat)) % 256) as u8,
{
    crate::compact_encoding::lemma_le_bytes_len(n, 8);
    assert forall|k: int| 0 <= k < 8 implies #[trigger] nonce_bytes(n)[4 + k] == ((n / crate::compact_encoding::pow256(k as nat)) % 256) as u8 by {
        lemma_le_byte_at(n, 8, k as nat);
    }
}

/// A keyed cipher state at counter `n` seals and opens under the nonce whose
/// first four bytes are zero and whose last eight are `n` in little-endian
/// order (see [`lemma_nonce_layout`]).
pub proof fn lemma_cipher_nonce(key: Seq<u8>, n: nat, ad: Seq<u8>, pt: Seq<u8>, nonce: Seq<u8>)
    requires
        nonce.len() == 12,
        forall|k: int| 0 <= k < 4 ==> #[trigger] nonce[k] == 0u8,
        forall|k: int| 0 <= k < 8 ==> #[trigger] nonce[4 + k] == ((n / crate::compact_encoding::pow256(k as nat)) % 256) as u8,
    ensures
        nonce == nonce_bytes(n),
        cipher_out(Some(key), n, ad, pt) == match chacha20poly1305_seal(key, nonce, ad, pt) {
            Some(c) => Ok::<Seq<u8>, NoiseError>(c),
            None => Err(NoiseError::DecryptionFailed),
        },
        cipher_in(Some(key), n, ad, pt) == match chacha20poly1305_open(key, nonce, ad, pt) {
            Some(p) => Ok::<Seq<u8>, NoiseError>(p),
            None => Err(NoiseError::DecryptionFailed),
        },
{
    lemma_nonce_layout(n);
    assert forall|k: int| 0 <= k < 12 implies nonce[k] == nonce_bytes(n)[k] by {
        if k >= 4 {
            let j = k - 4;
            assert(nonce[4 + j] == nonce_bytes(n)[4 + j]);
        }
    }
    assert(nonce =~= nonce_bytes(n));
}

} // verus!
