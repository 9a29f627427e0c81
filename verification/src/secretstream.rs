//! The `crypto_secretstream_xchacha20poly1305` construction of libsodium,
//! built from the ChaCha20 keystream and Poly1305.
//!
//! Each message uses the keystream of the current key and nonce: its first
//! 32 bytes key Poly1305, the next 64 bytes encrypt a block whose first byte
//! is the tag, and the bytes after those encrypt the message. The MAC covers
//!
//! ```text
//! aad || pad16(aad) || encrypted block[64] || encrypted message || zeros[mlen & 0xf] || le64(adlen) || le64(64 + mlen)
//! ```
//!
//! A ciphertext is the encrypted tag byte, the encrypted message and the MAC.
//! After each message the nonce's 8 last bytes are XORed with the MAC's first
//! 8 and its counter goes up by one; a rekey tag or a counter that wraps to
//! zero rekeys the stream.
use vstd::prelude::*;
use crate::compact_encoding::le_bytes;
use chacha20::cipher::consts::{U10, U16, U32};
use chacha20::cipher::generic_array::GenericArray;
use chacha20::cipher::{KeyIvInit, StreamCipher};
use poly1305::universal_hash::KeyInit;
use rand::TryRngCore;

verus! {

/// Key length.
pub const KEYBYTES: usize = 32;

/// Header length.
pub const HEADERBYTES: usize = 24;

/// What a ciphertext adds to its message: the encrypted tag byte and the 16-byte MAC.
pub const ABYTES: usize = 17;

/// Tag of an ordinary message.
pub const TAG_MESSAGE: u8 = 0x00;

/// Tag of a message that ends a run.
pub const TAG_PUSH: u8 = 0x01;

/// Tag that rekeys the stream.
pub const TAG_REKEY: u8 = 0x02;

/// Tag of the last message.
pub const TAG_FINAL: u8 = 0x03;

/// The most bytes `apply_keystream` gives from block 0 before the 32-bit
/// block counter runs out: 2^32 - 1 blocks of 64 bytes.
pub const MAX_KEYSTREAM: u64 = 0x3f_ffff_ffc0;

/// Errors of the stream.
#[derive(Debug, PartialEq, Eq, Structural)]
pub enum SecretstreamError {
    /// The ciphertext is shorter than a tag and a MAC.
    CiphertextTooShort,
    /// The MAC does not match.
    DecryptionFailed,
}

/// The byte at position `pos` of the ChaCha20 keystream of `key` and `nonce`,
/// counted from block 0.
pub uninterp spec fn chacha20_keystream_byte(key: Seq<u8>, nonce: Seq<u8>, pos: nat) -> u8;

/// The Poly1305 tag of `msg` under `key`.
pub uninterp spec fn poly1305_tag(key: Seq<u8>, msg: Seq<u8>) -> [u8; 16];

/// The HChaCha20 subkey of `key` and a 16-byte `input`.
pub uninterp spec fn hchacha20(key: Seq<u8>, input: Seq<u8>) -> [u8; 32];

/// The first `n` keystream bytes of `key` and `nonce`.
pub open spec fn keystream_spec(key: Seq<u8>, nonce: Seq<u8>, n: nat) -> Seq<u8> {
    Seq::new(n, |i: int| chacha20_keystream_byte(key, nonce, i as nat))
}

/// `ChaCha20::new(key, nonce).apply_keystream` on `n` zero bytes: the first
/// `n` bytes of the keystream, each a function of key, nonce and position.
/// The call panics past the cipher's 32-bit block counter, which `requires`
/// rules out.
#[verifier::external_body]
fn keystream(key: &[u8; 32], nonce: &[u8; 12], n: usize) -> (ks: Vec<u8>)
    requires
        n <= MAX_KEYSTREAM,
    ensures
        ks@.len() == n,
        forall|i: int| 0 <= i < n ==> ks@[i] == chacha20_keystream_byte(key@, nonce@, i as nat),
{
    let mut buf = vec![0u8; n];
    chacha20::ChaCha20::new(key.as_slice().into(), nonce.as_slice().into()).apply_keystream(&mut buf);
    buf
}

/// `Poly1305::new(key).compute_unpadded(data)`: a function of key and data.
#[verifier::external_body]
fn poly1305(key: &[u8; 32], data: &[u8]) -> (tag: [u8; 16])
    ensures
        tag == poly1305_tag(key@, data@),
{
    let out = poly1305::Poly1305::new(key.into()).compute_unpadded(data);
    let mut tag = [0u8; 16];
    tag.copy_from_slice(out.as_slice());
    tag
}

/// `chacha20::hchacha::<U10>(key, input)`: a function of key and input.
#[verifier::external_body]
fn hchacha(key: &[u8; 32], input: &[u8; 16]) -> (sub: [u8; 32])
    ensures
        sub == hchacha20(key@, input@),
{
    let out: GenericArray<u8, U32> = chacha20::hchacha::<U10>(
        GenericArray::<u8, U32>::from_slice(key),
        GenericArray::<u8, U16>::from_slice(input),
    );
    let mut sub = [0u8; 32];
    sub.copy_from_slice(out.as_slice());
    sub
}

/// Twenty-four bytes of the operating system's generator (`OsRng`), which
/// panics where the generator fails. Nothing is stated of the bytes.
#[verifier::external_body]
fn random_header() -> [u8; 24] {
    let mut header = [0u8; 24];
    rand::rngs::OsRng.try_fill_bytes(&mut header).expect("the operating system's generator failed");
    header
}

// ── The construction ────────────────────────────────────────────────────────

/// `a` XOR `b`, byte by byte, over the length of `a`.
pub open spec fn xor_bytes(a: Seq<u8>, b: Seq<u8>) -> Seq<u8> {
    Seq::new(a.len(), |i: int| a[i] ^ b[i])
}

/// `n` zero bytes.
pub open spec fn zeros(n: nat) -> Seq<u8> {
    Seq::new(n, |i: int| 0u8)
}

/// What the MAC covers.
pub open spec fn mac_input(aad: Seq<u8>, block: Seq<u8>, enc: Seq<u8>) -> Seq<u8> {
    let pad_aad = ((16 - aad.len() % 16) % 16) as nat;
    aad + zeros(pad_aad) + block + enc + zeros(enc.len() % 16) + le_bytes(aad.len(), 8) + le_bytes(
        64 + enc.len(),
        8,
    )
}

/// The encrypted 64-byte block of a tag: the keystream's second block, its
/// first byte XORed with the tag.
pub open spec fn tag_block(ks: Seq<u8>, tag: u8) -> Seq<u8> {
    ks.subrange(64, 128).update(0, ks[64] ^ tag)
}

/// The ciphertext of `msg` with `tag` under `key` and `nonce`.
pub open spec fn seal(key: Seq<u8>, nonce: Seq<u8>, aad: Seq<u8>, tag: u8, msg: Seq<u8>) -> Seq<u8> {
    let ks = keystream_spec(key, nonce, 128 + msg.len());
    let enc = xor_bytes(msg, ks.subrange(128, (128 + msg.len()) as int));
    let block = tag_block(ks, tag);
    seq![block[0]] + enc + poly1305_tag(ks.subrange(0, 32), mac_input(aad, block, enc))@
}

/// The message and tag of a ciphertext under `key` and `nonce`, or why it
/// does not open.
pub open spec fn open(key: Seq<u8>, nonce: Seq<u8>, aad: Seq<u8>, ct: Seq<u8>) -> Result<(Seq<u8>, u8), SecretstreamError> {
    if ct.len() < ABYTES {
        Err(SecretstreamError::CiphertextTooShort)
    } else {
        let mlen = (ct.len() - ABYTES) as nat;
        let ks = keystream_spec(key, nonce, 128 + mlen);
        let enc = ct.subrange(1, 1 + mlen as int);
        let block = ks.subrange(64, 128).update(0, ct[0]);
        if poly1305_tag(ks.subrange(0, 32), mac_input(aad, block, enc))@ != ct.subrange(1 + mlen as int, ct.len() as int) {
            Err(SecretstreamError::DecryptionFailed)
        } else {
            Ok((xor_bytes(enc, ks.subrange(128, 128 + mlen as int)), ct[0] ^ ks[64]))
        }
    }
}

/// The counter of a nonce: its first four bytes, little-endian.
pub open spec fn nonce_counter(n: Seq<u8>) -> nat {
    n[0] as nat + n[1] as nat * 256 + n[2] as nat * 65536 + n[3] as nat * 16777216
}

/// The nonce after a message with this MAC: the last eight bytes XORed with
/// the MAC's first eight, the counter up by one (wrapping).
pub open spec fn evolved(n: Seq<u8>, mac: Seq<u8>) -> Seq<u8> {
    let c = (nonce_counter(n) + 1) % 4294967296;
    le_bytes(c, 4) + xor_bytes(n.subrange(4, 12), mac.subrange(0, 8))
}

/// Whether the stream rekeys after a message with `tag` that left nonce `n`.
pub open spec fn rekeys(tag: u8, n: Seq<u8>) -> bool {
    tag & TAG_REKEY != 0 || (n[0] == 0 && n[1] == 0 && n[2] == 0 && n[3] == 0)
}

/// The key and nonce after a rekey: key and the nonce's last eight bytes
/// XORed with 40 keystream bytes, and the counter set to 1.
pub open spec fn rekeyed(key: Seq<u8>, n: Seq<u8>) -> (Seq<u8>, Seq<u8>) {
    let buf = xor_bytes(key + n.subrange(4, 12), keystream_spec(key, n, 40));
    (buf.subrange(0, 32), seq![1u8, 0u8, 0u8, 0u8] + buf.subrange(32, 40))
}

/// The key and nonce after a message with `tag` and `mac`.
pub open spec fn next_state(key: Seq<u8>, n: Seq<u8>, tag: u8, mac: Seq<u8>) -> (Seq<u8>, Seq<u8>) {
    let n1 = evolved(n, mac);
    if rekeys(tag, n1) {
        rekeyed(key, n1)
    } else {
        (key, n1)
    }
}

/// The key and nonce a header starts a stream with.
pub open spec fn initial_state(key: Seq<u8>, header: Seq<u8>) -> (Seq<u8>, Seq<u8>) {
    (hchacha20(key, header.subrange(0, 16))@, seq![1u8, 0u8, 0u8, 0u8] + header.subrange(16, 24))
}

/// `a` XOR `b[off..off + a.len()]`.
fn xor_into(a: &[u8], b: &Vec<u8>, off: usize) -> (r: Vec<u8>)
    requires
        off + a@.len() <= b@.len(),
    ensures
        r@ == xor_bytes(a@, b@.subrange(off as int, off + a@.len())),
{
    let mut r: Vec<u8> = Vec::new();
    let blen = b.len();
    let mut i: usize = 0;
    while i < a.len()
        invariant
            i <= a@.len(),
            off + a@.len() <= b@.len(),
            blen == b@.len(),
            r@.len() == i,
            forall|j: int| 0 <= j < i ==> r@[j] == a@[j] ^ b@[off + j],
        decreases a@.len() - i,
    {
        r.push(a[i] ^ b[off + i]);
        i = i + 1;
    }
    proof {
        assert(r@ =~= xor_bytes(a@, b@.subrange(off as int, off + a@.len())));
    }
    r
}

/// Appends `n` zero bytes.
pub(crate) fn push_zeros(v: &mut Vec<u8>, n: usize)
    ensures
        final(v)@ == old(v)@ + zeros(n as nat),
{
    let ghost v0 = v@;
    let mut i: usize = 0;
    while i < n
        invariant
            i <= n,
            v@ == v0 + zeros(i as nat),
        decreases n - i,
    {
        v.push(0);
        i = i + 1;
        proof {
            assert(v@ =~= v0 + zeros(i as nat));
        }
    }
}

/// Appends a slice.
pub(crate) fn push_all(v: &mut Vec<u8>, s: &[u8])
    ensures
        final(v)@ == old(v)@ + s@,
{
    let ghost v0 = v@;
    let mut i: usize = 0;
    while i < s.len()
        invariant
            i <= s@.len(),
            v@ == v0 + s@.subrange(0, i as int),
        decreases s@.len() - i,
    {
        v.push(s[i]);
        i = i + 1;
        proof {
            assert(v@ =~= v0 + s@.subrange(0, i as int));
        }
    }
    proof {
        assert(s@.subrange(0, s@.len() as int) =~= s@);
    }
}

/// The `n` little-endian bytes of `x` (`n` is 4 or 8).
pub(crate) fn le_vec(x: u64, n: usize) -> (b: Vec<u8>)
    requires
        n == 4 ==> x < 0x1_0000_0000,
        n == 4 || n == 8,
    ensures
        b@ == le_bytes(x as nat, n as nat),
        b@.len() == n,
{
    let mut state = crate::compact_encoding::State::new();
    if n == 4 {
        crate::compact_encoding::preencode_uint32(&mut state, x as u32);
        state.allocate();
        crate::compact_encoding::encode_uint32(&mut state, x as u32);
    } else {
        crate::compact_encoding::preencode_uint64(&mut state, x);
        state.allocate();
        crate::compact_encoding::encode_uint64(&mut state, x);
    }
    proof {
        crate::compact_encoding::lemma_le_bytes_len(x as nat, n as nat);
        assert(state.buffer@ =~= le_bytes(x as nat, n as nat));
    }
    state.buffer
}

/// `v[from..to]` as a vector.
pub(crate) fn slice_vec(v: &[u8], from: usize, to: usize) -> (r: Vec<u8>)
    requires
        from <= to <= v@.len(),
    ensures
        r@ == v@.subrange(from as int, to as int),
{
    let mut r: Vec<u8> = Vec::new();
    let mut i: usize = from;
    while i < to
        invariant
            from <= i <= to <= v@.len(),
            r@ == v@.subrange(from as int, i as int),
        decreases to - i,
    {
        r.push(v[i]);
        i = i + 1;
        proof {
            assert(r@ =~= v@.subrange(from as int, i as int));
        }
    }
    r
}

/// The first 32 bytes of `v`.
fn first32(v: &Vec<u8>) -> (r: [u8; 32])
    requires
        v@.len() >= 32,
    ensures
        r@ == v@.subrange(0, 32),
{
    let mut r = [0u8; 32];
    let mut i: usize = 0;
    while i < 32
        invariant
            i <= 32,
            v@.len() >= 32,
            forall|j: int| 0 <= j < i ==> r@[j] == v@[j],
        decreases 32 - i,
    {
        r[i] = v[i];
        i = i + 1;
    }
    proof {
        assert(r@ =~= v@.subrange(0, 32));
    }
    r
}

/// The 16 bytes of `v` from `off`.
fn take16(v: &[u8], off: usize) -> (r: [u8; 16])
    requires
        off + 16 <= v@.len(),
    ensures
        r@ == v@.subrange(off as int, off + 16),
{
    let mut r = [0u8; 16];
    let vlen = v.len();
    let mut i: usize = 0;
    while i < 16
        invariant
            i <= 16,
            vlen == v@.len(),
            off + 16 <= v@.len(),
            forall|j: int| 0 <= j < i ==> r@[j] == v@[off + j],
        decreases 16 - i,
    {
        r[i] = v[off + i];
        i = i + 1;
    }
    proof {
        assert(r@ =~= v@.subrange(off as int, off + 16));
    }
    r
}

/// Whether `mac` equals the 16 bytes of `v` from `off`.
fn same_mac(mac: &[u8; 16], v: &[u8], off: usize) -> (r: bool)
    requires
        off + 16 <= v@.len(),
    ensures
        r == (mac@ == v@.subrange(off as int, off + 16)),
{
    let vlen = v.len();
    let mut i: usize = 0;
    while i < 16
        invariant
            i <= 16,
            vlen == v@.len(),
            off + 16 <= v@.len(),
            forall|j: int| 0 <= j < i ==> mac@[j] == v@[off + j],
        decreases 16 - i,
    {
        if mac[i] != v[off + i] {
            proof {
                assert(v@.subrange(off as int, off + 16)[i as int] == v@[off + i]);
            }
            return false;
        }
        i = i + 1;
    }
    proof {
        assert(mac@ =~= v@.subrange(off as int, off + 16));
    }
    true
}

/// The Poly1305 input of libsodium's construction (see the module's text).
fn build_mac_input(aad: &[u8], block: &Vec<u8>, enc: &Vec<u8>) -> (m: Vec<u8>)
    requires
        block@.len() == 64,
        aad@.len() + enc@.len() + 128 <= usize::MAX,
    ensures
        m@ == mac_input(aad@, block@, enc@),
{
    let adlen = aad.len();
    let mlen = enc.len();
    let pad_aad = (16 - adlen % 16) % 16;
    let pad_msg = mlen % 16;
    let mut m: Vec<u8> = Vec::new();
    push_all(&mut m, aad);
    push_zeros(&mut m, pad_aad);
    push_all(&mut m, block.as_slice());
    push_all(&mut m, enc.as_slice());
    push_zeros(&mut m, pad_msg);
    let a = le_vec(adlen as u64, 8);
    push_all(&mut m, a.as_slice());
    let b = le_vec((64 + mlen) as u64, 8);
    push_all(&mut m, b.as_slice());
    m
}

/// The MAC of an encrypted block and message under `poly_key`.
fn compute_mac(poly_key: &[u8; 32], aad: &[u8], block: &Vec<u8>, enc: &Vec<u8>) -> (mac: [u8; 16])
    requires
        block@.len() == 64,
        aad@.len() + enc@.len() + 128 <= usize::MAX,
    ensures
        mac == poly1305_tag(poly_key@, mac_input(aad@, block@, enc@)),
{
    let m = build_mac_input(aad, block, enc);
    poly1305(poly_key, m.as_slice())
}

/// The ciphertext of `message` with `tag`: encrypted tag byte, encrypted
/// message, MAC.
fn secretstream_encrypt(key: &[u8; 32], nonce: &[u8; 12], aad: &[u8], tag: u8, message: &[u8]) -> (ct: Vec<u8>)
    requires
        message@.len() + 128 <= MAX_KEYSTREAM,
        aad@.len() + message@.len() + 128 <= usize::MAX,
    ensures
        ct@ == seal(key@, nonce@, aad@, tag, message@),
{
    let n = 128 + message.len();
    let ks = keystream(key, nonce, n);
    let ghost kss = keystream_spec(key@, nonce@, n as nat);
    proof {
        assert(ks@ =~= kss);
    }
    let poly_key = first32(&ks);
    let mut block = slice_vec(ks.as_slice(), 64, 128);
    let b0 = ks[64] ^ tag;
    block.set(0, b0);
    let enc = xor_into(message, &ks, 128);
    let mac = compute_mac(&poly_key, aad, &block, &enc);
    let mut out: Vec<u8> = Vec::new();
    out.push(b0);
    push_all(&mut out, enc.as_slice());
    push_all(&mut out, mac.as_slice());
    proof {
        assert(block@ =~= tag_block(kss, tag));
        assert(out@ =~= seq![b0] + enc@ + mac@);
    }
    out
}

/// The view of a decryption result.
pub open spec fn opened(r: Result<(Vec<u8>, u8), SecretstreamError>) -> Result<(Seq<u8>, u8), SecretstreamError> {
    match r {
        Ok((m, t)) => Ok((m@, t)),
        Err(e) => Err(e),
    }
}

/// Checks the MAC of a ciphertext, then decrypts it: the message and its tag.
fn secretstream_decrypt(key: &[u8; 32], nonce: &[u8; 12], aad: &[u8], ct: &[u8]) -> (r: Result<(Vec<u8>, u8), SecretstreamError>)
    requires
        ct@.len() + 111 <= MAX_KEYSTREAM,
        aad@.len() + ct@.len() + 111 <= usize::MAX,
    ensures
        opened(r) == open(key@, nonce@, aad@, ct@),
{
    if ct.len() < ABYTES {
        return Err(SecretstreamError::CiphertextTooShort);
    }
    let mlen = ct.len() - ABYTES;
    let n = 128 + mlen;
    let ks = keystream(key, nonce, n);
    let ghost kss = keystream_spec(key@, nonce@, n as nat);
    proof {
        assert(ks@ =~= kss);
    }
    let poly_key = first32(&ks);
    let mut block = slice_vec(ks.as_slice(), 64, 128);
    let tag = ct[0] ^ ks[64];
    block.set(0, ct[0]);
    let enc = slice_vec(ct, 1, 1 + mlen);
    let mac = compute_mac(&poly_key, aad, &block, &enc);
    if !same_mac(&mac, ct, 1 + mlen) {
        return Err(SecretstreamError::DecryptionFailed);
    }
    let plain = xor_into(enc.as_slice(), &ks, 128);
    Ok((plain, tag))
}

/// XORs the MAC's first eight bytes into the nonce's last eight and adds one,
/// wrapping, to the counter in its first four.
fn evolve_nonce(nonce: &mut [u8; 12], mac: &[u8; 16])
    ensures
        final(nonce)@ == evolved(old(nonce)@, mac@),
{
    let ghost n0 = nonce@;
    let c: u64 = nonce[0] as u64 + nonce[1] as u64 * 256 + nonce[2] as u64 * 65536 + nonce[3] as u64 * 16777216;
    let mut i: usize = 0;
    while i < 8
        invariant
            i <= 8,
            forall|j: int| 0 <= j < 4 ==> nonce@[j] == n0[j],
            forall|j: int| 4 <= j < 4 + i ==> nonce@[j] == n0[j] ^ mac@[j - 4],
            forall|j: int| 4 + i <= j < 12 ==> nonce@[j] == n0[j],
        decreases 8 - i,
    {
        nonce[4 + i] = nonce[4 + i] ^ mac[i];
        i = i + 1;
    }
    let b = le_vec((c + 1) % 4294967296, 4);
    nonce[0] = b[0];
    nonce[1] = b[1];
    nonce[2] = b[2];
    nonce[3] = b[3];
    proof {
        assert(c == nonce_counter(n0));
        assert(nonce@ =~= evolved(n0, mac@));
    }
}

/// Replaces key and the nonce's last eight bytes by themselves XORed with 40
/// keystream bytes, and sets the counter to 1.
fn rekey_state(key: &mut [u8; 32], nonce: &mut [u8; 12])
    ensures
        (final(key)@, final(nonce)@) == rekeyed(old(key)@, old(nonce)@),
{
    let ghost k0 = key@;
    let ghost n0 = nonce@;
    let ks = keystream(key, nonce, 40);
    let mut i: usize = 0;
    while i < 32
        invariant
            i <= 32,
            ks@.len() == 40,
            forall|j: int| 0 <= j < i ==> key@[j] == k0[j] ^ ks@[j],
            forall|j: int| i <= j < 32 ==> key@[j] == k0[j],
        decreases 32 - i,
    {
        key[i] = key[i] ^ ks[i];
        i = i + 1;
    }
    let mut i: usize = 0;
    while i < 8
        invariant
            i <= 8,
            ks@.len() == 40,
            forall|j: int| 4 <= j < 4 + i ==> nonce@[j] == n0[j] ^ ks@[j + 28],
            forall|j: int| 4 + i <= j < 12 ==> nonce@[j] == n0[j],
        decreases 8 - i,
    {
        nonce[4 + i] = nonce[4 + i] ^ ks[32 + i];
        i = i + 1;
    }
    nonce[0] = 1;
    nonce[1] = 0;
    nonce[2] = 0;
    nonce[3] = 0;
    proof {
        let buf = xor_bytes(k0 + n0.subrange(4, 12), keystream_spec(k0, n0, 40));
        assert(ks@ =~= keystream_spec(k0, n0, 40));
        assert(key@ =~= buf.subrange(0, 32));
        assert(nonce@ =~= seq![1u8, 0u8, 0u8, 0u8] + buf.subrange(32, 40));
    }
}

/// The key and nonce a header starts a stream with.
fn init_from_header(key: &[u8; 32], header: &[u8; 24]) -> (r: ([u8; 32], [u8; 12]))
    ensures
        (r.0@, r.1@) == initial_state(key@, header@),
{
    let mut input = [0u8; 16];
    let mut i: usize = 0;
    while i < 16
        invariant
            i <= 16,
            forall|j: int| 0 <= j < i ==> input@[j] == header@[j],
        decreases 16 - i,
    {
        input[i] = header[i];
        i = i + 1;
    }
    let subkey = hchacha(key, &input);
    let mut nonce = [0u8; 12];
    nonce[0] = 1;
    let mut i: usize = 0;
    while i < 8
        invariant
            i <= 8,
            nonce@[0] == 1 && nonce@[1] == 0 && nonce@[2] == 0 && nonce@[3] == 0,
            forall|j: int| 4 <= j < 4 + i ==> nonce@[j] == header@[j + 12],
        decreases 8 - i,
    {
        nonce[4 + i] = header[16 + i];
        i = i + 1;
    }
    proof {
        assert(input@ =~= header@.subrange(0, 16));
        assert(nonce@ =~= seq![1u8, 0u8, 0u8, 0u8] + header@.subrange(16, 24));
    }
    (subkey, nonce)
}

/// Whether a message with `tag` that left `nonce` rekeys the stream.
fn should_rekey(tag: u8, nonce: &[u8; 12]) -> (r: bool)
    ensures
        r == rekeys(tag, nonce@),
{
    tag & TAG_REKEY != 0 || (nonce[0] == 0 && nonce[1] == 0 && nonce[2] == 0 && nonce[3] == 0)
}

/// The associated data of an optional argument: none is empty.
pub open spec fn aad_of(ad: Option<&[u8]>) -> Seq<u8> {
    match ad {
        Some(a) => a@,
        None => Seq::empty(),
    }
}

/// The sending end of a stream.
pub struct Push {
    key: [u8; 32],
    nonce: [u8; 12],
}

impl View for Push {
    type V = (Seq<u8>, Seq<u8>);

    /// The current key and nonce.
    closed spec fn view(&self) -> (Seq<u8>, Seq<u8>) {
        (self.key@, self.nonce@)
    }
}

impl Push {
    /// A stream under `key` with a random header, and the header.
    pub fn new(key: &[u8; 32]) -> (r: (Self, [u8; 24]))
        ensures
            r.0@ == initial_state(key@, r.1@),
    {
        let header = random_header();
        let state = Self::with_header(key, &header);
        (state, header)
    }

    /// The stream under `key` that `header` starts.
    pub fn with_header(key: &[u8; 32], header: &[u8; 24]) -> (s: Self)
        ensures
            s@ == initial_state(key@, header@),
    {
        let (subkey, nonce) = init_from_header(key, header);
        Push { key: subkey, nonce }
    }

    /// Encrypts an ordinary message.
    pub fn next(&mut self, plaintext: &[u8]) -> (ct: Vec<u8>)
        requires
            plaintext@.len() + 128 <= MAX_KEYSTREAM,
            plaintext@.len() + 128 <= usize::MAX,
        ensures
            ct@ == seal(old(self)@.0, old(self)@.1, Seq::empty(), TAG_MESSAGE, plaintext@),
            final(self)@ == next_state(old(self)@.0, old(self)@.1, TAG_MESSAGE, ct@.subrange(ct@.len() - 16, ct@.len() as int)),
    {
        self.push(plaintext, None, TAG_MESSAGE)
    }

    /// Encrypts the last message.
    pub fn finalize(&mut self, plaintext: &[u8]) -> (ct: Vec<u8>)
        requires
            plaintext@.len() + 128 <= MAX_KEYSTREAM,
            plaintext@.len() + 128 <= usize::MAX,
        ensures
            ct@ == seal(old(self)@.0, old(self)@.1, Seq::empty(), TAG_FINAL, plaintext@),
            final(self)@ == next_state(old(self)@.0, old(self)@.1, TAG_FINAL, ct@.subrange(ct@.len() - 16, ct@.len() as int)),
    {
        self.push(plaintext, None, TAG_FINAL)
    }

    /// Encrypts `plaintext` with `tag` and the associated data `ad`, then
    /// moves the nonce on and rekeys where the tag or the counter says so.
    pub fn push(&mut self, plaintext: &[u8], ad: Option<&[u8]>, tag: u8) -> (ct: Vec<u8>)
        requires
            plaintext@.len() + 128 <= MAX_KEYSTREAM,
            aad_of(ad).len() + plaintext@.len() + 128 <= usize::MAX,
        ensures
            ct@ == seal(old(self)@.0, old(self)@.1, aad_of(ad), tag, plaintext@),
            final(self)@ == next_state(old(self)@.0, old(self)@.1, tag, ct@.subrange(ct@.len() - 16, ct@.len() as int)),
    {
        let empty: Vec<u8> = Vec::new();
        let aad: &[u8] = match ad {
            Some(a) => a,
            None => empty.as_slice(),
        };
        let ciphertext = secretstream_encrypt(&self.key, &self.nonce, aad, tag, plaintext);
        proof {
            lemma_seal_len(self.key@, self.nonce@, aad@, tag, plaintext@);
        }
        let mac_start = ciphertext.len() - 16;
        let mac = take16(ciphertext.as_slice(), mac_start);
        evolve_nonce(&mut self.nonce, &mac);
        if should_rekey(tag, &self.nonce) {
            rekey_state(&mut self.key, &mut self.nonce);
        }
        ciphertext
    }
}

/// The receiving end of a stream.
pub struct Pull {
    key: [u8; 32],
    nonce: [u8; 12],
}

impl View for Pull {
    type V = (Seq<u8>, Seq<u8>);

    /// The current key and nonce.
    closed spec fn view(&self) -> (Seq<u8>, Seq<u8>) {
        (self.key@, self.nonce@)
    }
}

impl Pull {
    /// The stream under `key` that `header` starts.
    pub fn new(key: &[u8; 32], header: &[u8; 24]) -> (s: Self)
        ensures
            s@ == initial_state(key@, header@),
    {
        let (subkey, nonce) = init_from_header(key, header);
        Pull { key: subkey, nonce }
    }

    /// Decrypts a message without associated data.
    pub fn next(&mut self, ciphertext: &[u8]) -> (r: Result<(Vec<u8>, u8), SecretstreamError>)
        requires
            ciphertext@.len() + 111 <= MAX_KEYSTREAM,
            ciphertext@.len() + 111 <= usize::MAX,
        ensures
            opened(r) == open(old(self)@.0, old(self)@.1, Seq::empty(), ciphertext@),
            (match opened(r) {
                Ok((m, t)) => final(self)@ == next_state(old(self)@.0, old(self)@.1, t, ciphertext@.subrange(ciphertext@.len() - 16, ciphertext@.len() as int)),
                Err(_) => final(self)@ == old(self)@,
            }),
    {
        self.pull(ciphertext, None)
    }

    /// Checks and decrypts `ciphertext` with the associated data `ad`; on
    /// success moves the nonce on and rekeys where the tag or the counter
    /// says so, on failure leaves the stream as it was.
    pub fn pull(&mut self, ciphertext: &[u8], ad: Option<&[u8]>) -> (r: Result<(Vec<u8>, u8), SecretstreamError>)
        requires
            ciphertext@.len() + 111 <= MAX_KEYSTREAM,
            aad_of(ad).len() + ciphertext@.len() + 111 <= usize::MAX,
        ensures
            opened(r) == open(old(self)@.0, old(self)@.1, aad_of(ad), ciphertext@),
            (match opened(r) {
                Ok((m, t)) => final(self)@ == next_state(old(self)@.0, old(self)@.1, t, ciphertext@.subrange(ciphertext@.len() - 16, ciphertext@.len() as int)),
                Err(_) => final(self)@ == old(self)@,
            }),
    {
        if ciphertext.len() < ABYTES {
            return Err(SecretstreamError::CiphertextTooShort);
        }
        let empty: Vec<u8> = Vec::new();
        let aad: &[u8] = match ad {
            Some(a) => a,
            None => empty.as_slice(),
        };
        let mac_start = ciphertext.len() - 16;
        let mac = take16(ciphertext, mac_start);
        let (message, tag) = secretstream_decrypt(&self.key, &self.nonce, aad, ciphertext)?;
        evolve_nonce(&mut self.nonce, &mac);
        if should_rekey(tag, &self.nonce) {
            rekey_state(&mut self.key, &mut self.nonce);
        }
        Ok((message, tag))
    }
}

/// A ciphertext is its message's length plus `ABYTES` long.
pub proof fn lemma_seal_len(key: Seq<u8>, nonce: Seq<u8>, aad: Seq<u8>, tag: u8, msg: Seq<u8>)
    ensures
        seal(key, nonce, aad, tag, msg).len() == msg.len() + ABYTES,
{
}

/// Opening what `seal` made, under the same key, nonce and associated data,
/// gives back the message and its tag. Since both ends then move on by the
/// same tag and MAC, a pull that follows a push from the same state ends in
/// the push's next state.
pub proof fn lemma_pull_of_push(key: Seq<u8>, nonce: Seq<u8>, aad: Seq<u8>, tag: u8, msg: Seq<u8>)
    ensures
        open(key, nonce, aad, seal(key, nonce, aad, tag, msg)) == Ok::<(Seq<u8>, u8), SecretstreamError>((msg, tag)),
{
    let mlen = msg.len();
    let ks = keystream_spec(key, nonce, 128 + mlen);
    let enc = xor_bytes(msg, ks.subrange(128, 128 + mlen as int));
    let block = tag_block(ks, tag);
    let mac = poly1305_tag(ks.subrange(0, 32), mac_input(aad, block, enc))@;
    let ct = seal(key, nonce, aad, tag, msg);
    assert(ct == seq![block[0]] + enc + mac);
    assert(ct.len() == mlen + 17);
    assert(ct.subrange(1, 1 + mlen as int) =~= enc);
    assert(ks.subrange(64, 128).update(0, ct[0]) =~= block);
    assert(ct.subrange(1 + mlen as int, ct.len() as int) =~= mac);
    let k64 = ks[64];
    assert(ct[0] == k64 ^ tag);
    assert((k64 ^ tag) ^ k64 == tag) by (bit_vector);
    let pad = ks.subrange(128, 128 + mlen as int);
    assert forall|i: int| 0 <= i < mlen implies #[trigger] xor_bytes(enc, pad)[i] == msg[i] by {
        let a = msg[i];
        let b = pad[i];
        assert((a ^ b) ^ b == a) by (bit_vector);
    }
    assert(xor_bytes(enc, pad) =~= msg);
}

} // verus!
