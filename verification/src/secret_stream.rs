//! The encrypted transport of `@hyperswarm/secret-stream`: its frames,
//! stream identities, ID header and the per-message steps of an
//! established stream.
//!
//! ```text
//! FRAMING:      [3B little-endian length][body]
//! ID HEADER:    [3B len=56][32B stream id][24B secretstream header]
//! MESSAGES:     [3B len=L+17][1B enc tag][LB ciphertext][16B MAC]
//! ```
//!
//! Reading and writing the transport is the caller's: this module computes
//! what to write and decides on what was read.
use vstd::prelude::*;
use crate::crypto::{blake2b_256, blake2b_256_keyed, hash, namespace_entry};
use crate::noise::NoiseError;
use crate::secretstream::{
    next_state, open, push_all, seal, Pull, Push, SecretstreamError, ABYTES, MAX_KEYSTREAM,
    TAG_MESSAGE,
};
use blake2::digest::{KeyInit, Mac};

verus! {

/// Length of the ID header body: a 32-byte stream id and a 24-byte header.
pub const IDHEADERBYTES: usize = 56;

/// The largest body a 3-byte length prefix can announce.
pub const MAX_MESSAGE_LEN: usize = 0xFF_FFFF;

/// Errors of an encrypted stream.
#[derive(Debug)]
#[non_exhaustive]
pub enum SecretStreamError {
    /// The transport failed; the text is its error.
    Io(String),
    /// The Noise handshake failed.
    Noise(NoiseError),
    /// A message did not decrypt.
    Decrypt(SecretstreamError),
    /// The handshake ended before completing.
    HandshakeIncomplete,
    /// The transport ended in the middle of the handshake or a frame.
    UnexpectedEof,
    /// The ID header had the wrong length.
    InvalidIdHeader {
        /// The expected length.
        expected: usize,
        /// The length received.
        got: usize,
    },
    /// The remote stream id is not the one the handshake implies.
    StreamIdMismatch,
    /// A body too long for the 3-byte length prefix.
    MessageTooLarge {
        /// Its length.
        len: usize,
    },
}

// ── Frames ──────────────────────────────────────────────────────────────────

/// The 3-byte little-endian length prefix of `n`.
pub open spec fn frame_header(n: nat) -> Seq<u8> {
    seq![(n % 256) as u8, ((n / 256) % 256) as u8, ((n / 65536) % 256) as u8]
}

/// The length a 3-byte prefix announces.
pub open spec fn frame_len(h: Seq<u8>) -> nat {
    (h[0] + h[1] * 256 + h[2] * 65536) as nat
}

/// The bytes that frame `data`: its length prefix, then the data.
pub fn encode_frame(data: &[u8]) -> (r: Result<Vec<u8>, SecretStreamError>)
    ensures
        data@.len() <= MAX_MESSAGE_LEN ==> (r matches Ok(v) && v@ == frame_header(data@.len()) + data@),
        data@.len() > MAX_MESSAGE_LEN ==> (r matches Err(SecretStreamError::MessageTooLarge { len }) && len == data@.len()),
{
    let len = data.len();
    if len > MAX_MESSAGE_LEN {
        return Err(SecretStreamError::MessageTooLarge { len });
    }
    let mut out: Vec<u8> = Vec::new();
    out.push((len % 256) as u8);
    out.push(((len / 256) % 256) as u8);
    out.push(((len / 65536) % 256) as u8);
    push_all(&mut out, data);
    proof {
        assert(out@ =~= frame_header(data@.len()) + data@);
    }
    Ok(out)
}

/// The body length a frame's 3-byte prefix announces.
pub fn decode_frame_len(header: &[u8; 3]) -> (n: usize)
    ensures
        n == frame_len(header@),
        n <= MAX_MESSAGE_LEN,
{
    header[0] as usize + header[1] as usize * 256 + header[2] as usize * 65536
}

/// A length prefix announces the length it was made of.
pub proof fn lemma_frame_header_roundtrip(n: nat)
    requires
        n <= MAX_MESSAGE_LEN,
    ensures
        frame_header(n).len() == 3,
        frame_len(frame_header(n)) == n,
{
    let h = frame_header(n);
    assert(h[0] == n % 256);
    assert(h[1] == (n / 256) % 256);
    assert(h[2] == (n / 65536) % 256);
    assert((n / 65536) % 256 == n / 65536);
    assert(n == n % 256 + ((n / 256) % 256) * 256 + (n / 65536) * 65536);
}

// ── Stream identities ───────────────────────────────────────────────────────

/// `hyperswarm/secret-stream`.
pub open spec fn secret_stream_name() -> Seq<u8> {
    seq![
        0x68u8, 0x79, 0x70, 0x65, 0x72, 0x73, 0x77, 0x61, 0x72, 0x6d, 0x2f, 0x73, 0x65, 0x63, 0x72,
        0x65, 0x74, 0x2d, 0x73, 0x74, 0x72, 0x65, 0x61, 0x6d,
    ]
}

/// The secret-stream namespace of `id`: 0 for the initiator, 1 for the
/// responder, 2 for unordered sends.
pub fn ns_secret_stream(id: u8) -> (h: [u8; 32])
    ensures
        h@ == namespace_entry(blake2b_256(secret_stream_name()), id),
{
    let name: [u8; 24] = [
        0x68, 0x79, 0x70, 0x65, 0x72, 0x73, 0x77, 0x61, 0x72, 0x6d, 0x2f, 0x73, 0x65, 0x63, 0x72,
        0x65, 0x74, 0x2d, 0x73, 0x74, 0x72, 0x65, 0x61, 0x6d,
    ];
    let name_hash = hash(&name);
    let mut ns: Vec<u8> = Vec::new();
    push_all(&mut ns, name_hash.as_slice());
    ns.push(id);
    proof {
        assert(name@ =~= secret_stream_name());
    }
    hash(ns.as_slice())
}

/// The keyed 32-byte BLAKE2b digest of `data` under a 64-byte key
/// (`Blake2bMac<U32>::new_from_slice(key)`, `update`, `finalize`). A 64-byte
/// key is the longest the MAC accepts, so building it never fails.
#[verifier::external_body]
fn keyed_hash64(key: &[u8; 64], data: &[u8]) -> (h: [u8; 32])
    ensures
        h@ == blake2b_256_keyed(key@, data@),
{
    let mut mac: blake2::Blake2bMac<blake2::digest::consts::U32> = KeyInit::new_from_slice(key.as_slice()).expect(
        "64-byte key",
    );
    mac.update(data);
    let output = mac.finalize().into_bytes();
    let mut result = [0u8; 32];
    result.copy_from_slice(&output);
    result
}

/// The stream id of one side: its namespace keyed with the handshake hash.
pub open spec fn stream_id_of(handshake_hash: Seq<u8>, is_initiator: bool) -> Seq<u8> {
    blake2b_256_keyed(
        handshake_hash,
        namespace_entry(blake2b_256(secret_stream_name()), if is_initiator { 0u8 } else { 1u8 }),
    )
}

/// The 32-byte identity of one side of a connection.
pub fn stream_id(handshake_hash: &[u8; 64], is_initiator: bool) -> (id: [u8; 32])
    ensures
        id@ == stream_id_of(handshake_hash@, is_initiator),
{
    let ns = if is_initiator { ns_secret_stream(0) } else { ns_secret_stream(1) };
    keyed_hash64(handshake_hash, ns.as_slice())
}

// ── The ID header ───────────────────────────────────────────────────────────

/// The ID message a side sends: its stream id, then its secretstream header.
pub fn id_message(local_id: &[u8; 32], header: &[u8; 24]) -> (m: Vec<u8>)
    ensures
        m@ == local_id@ + header@,
        m@.len() == IDHEADERBYTES,
{
    let mut m: Vec<u8> = Vec::new();
    push_all(&mut m, local_id.as_slice());
    push_all(&mut m, header.as_slice());
    m
}

/// What the remote ID message gives: its secretstream header, or why not.
pub open spec fn checked_id(msg: Seq<u8>, expected_id: Seq<u8>) -> Result<Seq<u8>, SecretStreamError> {
    if msg.len() != IDHEADERBYTES {
        Err(SecretStreamError::InvalidIdHeader { expected: IDHEADERBYTES, got: msg.len() as usize })
    } else if msg.subrange(0, 32) != expected_id {
        Err(SecretStreamError::StreamIdMismatch)
    } else {
        Ok(msg.subrange(32, 56))
    }
}

/// Checks the remote ID message against the id the handshake implies; on
/// success, the remote secretstream header.
pub fn check_id_message(msg: &[u8], expected_id: &[u8; 32]) -> (r: Result<[u8; 24], SecretStreamError>)
    ensures
        match (r, checked_id(msg@, expected_id@)) {
            (Ok(h), Ok(w)) => h@ == w,
            (Err(e), Err(f)) => e == f,
            _ => false,
        },
{
    if msg.len() != IDHEADERBYTES {
        return Err(SecretStreamError::InvalidIdHeader { expected: IDHEADERBYTES, got: msg.len() });
    }
    let mut i: usize = 0;
    while i < 32
        invariant
            i <= 32,
            msg@.len() == 56,
            forall|j: int| 0 <= j < i ==> msg@[j] == expected_id@[j],
        decreases 32 - i,
    {
        if msg[i] != expected_id[i] {
            proof {
                assert(msg@.subrange(0, 32)[i as int] != expected_id@[i as int]);
            }
            return Err(SecretStreamError::StreamIdMismatch);
        }
        i = i + 1;
    }
    proof {
        assert(msg@.subrange(0, 32) =~= expected_id@);
    }
    let mut header = [0u8; 24];
    let mut k: usize = 0;
    while k < 24
        invariant
            k <= 24,
            msg@.len() == 56,
            forall|j: int| 0 <= j < k ==> header@[j] == msg@[32 + j],
        decreases 24 - k,
    {
        header[k] = msg[32 + k];
        k = k + 1;
    }
    proof {
        assert(header@ =~= msg@.subrange(32, 56));
    }
    Ok(header)
}

// ── An established stream ───────────────────────────────────────────────────

/// An encrypted stream over a transport `T`, after the handshake and the ID
/// header exchange.
pub struct SecretStream<T> {
    raw: T,
    encrypt: Push,
    decrypt: Pull,
    remote_public_key: [u8; 32],
    handshake_hash: [u8; 64],
    is_initiator: bool,
}

/// What reading one frame body gives: the message, `None` for an empty
/// keepalive, or why it does not decrypt; with the receiving state after it.
pub open spec fn read_step(rx: (Seq<u8>, Seq<u8>), msg: Seq<u8>) -> ((Seq<u8>, Seq<u8>), Result<Option<Seq<u8>>, SecretStreamError>) {
    if msg.len() < ABYTES {
        (rx, Err(SecretStreamError::Decrypt(SecretstreamError::CiphertextTooShort)))
    } else {
        match open(rx.0, rx.1, Seq::empty(), msg) {
            Err(e) => (rx, Err(SecretStreamError::Decrypt(e))),
            Ok((m, t)) => {
                let next = next_state(rx.0, rx.1, t, msg.subrange(msg.len() - 16, msg.len() as int));
                if m.len() == 0 {
                    (next, Ok(None))
                } else {
                    (next, Ok(Some(m)))
                }
            },
        }
    }
}

/// The view of a read result.
pub open spec fn read_view(r: Result<Option<Vec<u8>>, SecretStreamError>) -> Result<Option<Seq<u8>>, SecretStreamError> {
    match r {
        Ok(Some(v)) => Ok(Some(v@)),
        Ok(None) => Ok(None),
        Err(e) => Err(e),
    }
}

impl<T> SecretStream<T> {
    /// The sending key and nonce.
    pub closed spec fn tx_state(&self) -> (Seq<u8>, Seq<u8>) {
        self.encrypt@
    }

    /// The receiving key and nonce.
    pub closed spec fn rx_state(&self) -> (Seq<u8>, Seq<u8>) {
        self.decrypt@
    }

    /// The remote static key.
    pub closed spec fn remote_key(&self) -> Seq<u8> {
        self.remote_public_key@
    }

    /// The handshake hash.
    pub closed spec fn hash_view(&self) -> Seq<u8> {
        self.handshake_hash@
    }

    /// Whether this side initiated.
    pub closed spec fn initiator(&self) -> bool {
        self.is_initiator
    }

    /// The transport.
    pub closed spec fn transport(&self) -> T {
        self.raw
    }

    /// The stream that follows a completed key exchange: `encrypt` is the
    /// sending end whose header this side sent, `remote_msg` the ID message
    /// received. The remote id must be the one the handshake hash implies
    /// for the other side; its header starts the receiving end under `rx`.
    pub fn establish(
        is_initiator: bool,
        raw: T,
        encrypt: Push,
        rx: [u8; 32],
        handshake_hash: [u8; 64],
        remote_public_key: [u8; 32],
        remote_msg: &[u8],
    ) -> (r: Result<Self, SecretStreamError>)
        ensures
            match checked_id(remote_msg@, stream_id_of(handshake_hash@, !is_initiator)) {
                Err(e) => r matches Err(f) && f == e,
                Ok(header) => r matches Ok(s) && s.tx_state() == encrypt@ && s.rx_state()
                    == crate::secretstream::initial_state(rx@, header) && s.remote_key() == remote_public_key@
                    && s.hash_view() == handshake_hash@ && s.initiator() == is_initiator && s.transport() == raw,
            },
    {
        let expected = stream_id(&handshake_hash, !is_initiator);
        let header = match check_id_message(remote_msg, &expected) {
            Ok(h) => h,
            Err(e) => {
                return Err(e);
            },
        };
        let decrypt = Pull::new(&rx, &header);
        Ok(SecretStream { raw, encrypt, decrypt, remote_public_key, handshake_hash, is_initiator })
    }

    /// The frame that carries `data`, encrypted as an ordinary message.
    pub fn seal_message(&mut self, data: &[u8]) -> (r: Result<Vec<u8>, SecretStreamError>)
        requires
            data@.len() + 128 <= MAX_KEYSTREAM,
            data@.len() + 128 <= usize::MAX,
        ensures
            ({
                let ct = seal(old(self).tx_state().0, old(self).tx_state().1, Seq::empty(), TAG_MESSAGE, data@);
                &&& final(self).tx_state() == next_state(
                    old(self).tx_state().0,
                    old(self).tx_state().1,
                    TAG_MESSAGE,
                    ct.subrange(ct.len() - 16, ct.len() as int),
                )
                &&& ct.len() <= MAX_MESSAGE_LEN ==> (r matches Ok(v) && v@ == frame_header(ct.len()) + ct)
                &&& ct.len() > MAX_MESSAGE_LEN ==> (r matches Err(SecretStreamError::MessageTooLarge { len }) && len == ct.len())
            }),
            final(self).rx_state() == old(self).rx_state(),
            final(self).remote_key() == old(self).remote_key(),
            final(self).hash_view() == old(self).hash_view(),
            final(self).initiator() == old(self).initiator(),
            final(self).transport() == old(self).transport(),
    {
        let encrypted = self.encrypt.next(data);
        encode_frame(encrypted.as_slice())
    }

    /// Decrypts one frame body: the message, or `None` for an empty
    /// keepalive, which the reader skips.
    pub fn open_message(&mut self, msg: &[u8]) -> (r: Result<Option<Vec<u8>>, SecretStreamError>)
        requires
            msg@.len() + 111 <= MAX_KEYSTREAM,
            msg@.len() + 111 <= usize::MAX,
        ensures
            (final(self).rx_state(), read_view(r)) == read_step(old(self).rx_state(), msg@),
            final(self).tx_state() == old(self).tx_state(),
            final(self).remote_key() == old(self).remote_key(),
            final(self).hash_view() == old(self).hash_view(),
            final(self).initiator() == old(self).initiator(),
            final(self).transport() == old(self).transport(),
    {
        if msg.len() < ABYTES {
            return Err(SecretStreamError::Decrypt(SecretstreamError::CiphertextTooShort));
        }
        match self.decrypt.next(msg) {
            Err(e) => Err(SecretStreamError::Decrypt(e)),
            Ok((plaintext, _tag)) => {
                if plaintext.len() == 0 {
                    Ok(None)
                } else {
                    Ok(Some(plaintext))
                }
            },
        }
    }

    /// The remote peer's static public key.
    pub fn remote_public_key(&self) -> (k: &[u8; 32])
        ensures
            k@ == self.remote_key(),
    {
        &self.remote_public_key
    }

    /// The hash of the handshake transcript.
    pub fn handshake_hash(&self) -> (h: &[u8; 64])
        ensures
            h@ == self.hash_view(),
    {
        &self.handshake_hash
    }

    /// Whether this side initiated the connection.
    pub fn is_initiator(&self) -> (b: bool)
        ensures
            b == self.initiator(),
    {
        self.is_initiator
    }

    /// The transport, to read and write frames on.
    pub fn transport_mut(&mut self) -> (t: &mut T)
        ensures
            *t == old(self).transport(),
            final(self).transport() == *final(t),
            final(self).tx_state() == old(self).tx_state(),
            final(self).rx_state() == old(self).rx_state(),
            final(self).remote_key() == old(self).remote_key(),
            final(self).hash_view() == old(self).hash_view(),
            final(self).initiator() == old(self).initiator(),
    {
        &mut self.raw
    }

    /// The transport, giving the stream up.
    pub fn into_inner(self) -> (t: T)
        ensures
            t == self.transport(),
    {
        self.raw
    }
}

} // verus!
