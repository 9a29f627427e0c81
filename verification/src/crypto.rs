//! Hashing, namespaces and signatures: BLAKE2b-256 digests, the signing
//! namespaces of HyperDHT, Ed25519 detached signatures and the buffers that
//! announcements and mutable records sign.
use vstd::prelude::*;
use vstd::string::StringSliceAdditionalSpecFns;
use blake2::digest::{KeyInit, Mac};
use blake2::Digest;
use ed25519_dalek::{Signer, Verifier};
use crate::compact_encoding::{enc_buffer, enc_uint, uint_size, lemma_buffer_roundtrip, lemma_uint_roundtrip, State};

verus! {

/// The BLAKE2b digest with a 32-byte output of `data`.
pub uninterp spec fn blake2b_256(data: Seq<u8>) -> Seq<u8>;

/// The keyed BLAKE2b digest with a 32-byte output of `data` under `key`.
pub uninterp spec fn blake2b_256_keyed(key: Seq<u8>, data: Seq<u8>) -> Seq<u8>;

/// The Ed25519 signature of `message` by the key with secret seed `seed`.
pub uninterp spec fn ed25519_sign(seed: Seq<u8>, message: Seq<u8>) -> Seq<u8>;

/// The Ed25519 public key of the key with secret seed `seed`.
pub uninterp spec fn ed25519_public(seed: Seq<u8>) -> Seq<u8>;

/// Whether `signature` is a valid Ed25519 signature of `message` under the
/// public key `public_key`.
pub uninterp spec fn ed25519_verify(signature: Seq<u8>, message: Seq<u8>, public_key: Seq<u8>) -> bool;

/// The 32-byte BLAKE2b digest of `data`: `blake2::Blake2b<U32>::digest`.
/// The digest is a function of the input bytes alone.
#[verifier::external_body]
pub fn hash(data: &[u8]) -> (h: [u8; 32])
    ensures
        h@ == blake2b_256(data@),
{
    let output = blake2::Blake2b::<blake2::digest::consts::U32>::digest(data);
    let mut result = [0u8; 32];
    result.copy_from_slice(&output);
    result
}

/// The keyed 32-byte BLAKE2b digest (`blake2::Blake2bMac<U32>` keyed with
/// `key`, fed `data`). A 32-byte key is within the 64 bytes the MAC accepts,
/// so building it never fails; the digest is a function of key and data alone.
#[verifier::external_body]
pub(crate) fn keyed_hash(key: &[u8; 32], data: &[u8]) -> (h: [u8; 32])
    ensures
        h@ == blake2b_256_keyed(key@, data@),
{
    let mut mac: blake2::Blake2bMac<blake2::digest::consts::U32> = KeyInit::new_from_slice(key.as_slice()).expect(
        "32-byte key",
    );
    mac.update(data);
    let output = mac.finalize().into_bytes();
    let mut result = [0u8; 32];
    result.copy_from_slice(&output);
    result
}

/// The bytes of a list of parts, one after another.
pub open spec fn concat_parts(parts: Seq<Seq<u8>>) -> Seq<u8>
    decreases parts.len(),
{
    if parts.len() == 0 {
        Seq::empty()
    } else {
        concat_parts(parts.drop_last()) + parts.last()
    }
}

/// The plain values of a list of byte slices.
pub open spec fn parts_view(parts: Seq<&[u8]>) -> Seq<Seq<u8>> {
    parts.map_values(|p: &[u8]| p@)
}

/// The digest of the parts fed one after another: the digest of their
/// concatenation.
pub fn hash_batch(parts: &[&[u8]]) -> (h: [u8; 32])
    ensures
        h@ == blake2b_256(concat_parts(parts_view(parts@))),
{
    let ghost ps = parts_view(parts@);
    let mut all: Vec<u8> = Vec::new();
    let mut i: usize = 0;
    while i < parts.len()
        invariant
            i <= parts@.len(),
            ps == parts_view(parts@),
            all@ == concat_parts(ps.take(i as int)),
        decreases parts@.len() - i,
    {
        let part = parts[i];
        let ghost before = all@;
        let mut j: usize = 0;
        while j < part.len()
            invariant
                j <= part@.len(),
                all@ == before + part@.take(j as int),
            decreases part@.len() - j,
        {
            all.push(part[j]);
            proof {
                assert(before + part@.take(j + 1) =~= before + part@.take(j as int) + seq![part@[j as int]]);
            }
            j = j + 1;
        }
        proof {
            assert(part@.take(j as int) =~= part@);
            assert(ps.take(i + 1).drop_last() =~= ps.take(i as int));
            assert(ps[i as int] == part@);
        }
        i = i + 1;
    }
    proof {
        assert(ps.take(i as int) =~= ps);
    }
    hash(all.as_slice())
}

/// The bytes `hypercore`, the data of a discovery key.
pub open spec fn hypercore_bytes() -> Seq<u8> {
    seq![0x68u8, 0x79, 0x70, 0x65, 0x72, 0x63, 0x6f, 0x72, 0x65]
}

/// The discovery key of a public key: the keyed digest of `hypercore`.
pub fn discovery_key(public_key: &[u8; 32]) -> (h: [u8; 32])
    ensures
        h@ == blake2b_256_keyed(public_key@, hypercore_bytes()),
{
    let data: [u8; 9] = [0x68, 0x79, 0x70, 0x65, 0x72, 0x63, 0x6f, 0x72, 0x65];
    proof {
        assert(data@ =~= hypercore_bytes());
    }
    keyed_hash(public_key, &data)
}

/// The namespace of command `id` under a name hashed as `name_hash`.
pub open spec fn namespace_entry(name_hash: Seq<u8>, id: u8) -> Seq<u8> {
    blake2b_256(name_hash.push(id))
}

/// Derives signing namespaces from a name and a list of command ids: the
/// digest of the name's digest followed by the id, for each id.
pub fn namespace(name: &str, ids: &[u8]) -> (r: Vec<[u8; 32]>)
    ensures
        r@.len() == ids@.len(),
        forall|i: int|
            0 <= i < ids@.len() ==> (#[trigger] r@[i])@ == namespace_entry(blake2b_256(name.spec_bytes()), ids@[i]),
{
    let name_hash = hash(name.as_bytes());
    let mut result: Vec<[u8; 32]> = Vec::new();
    let mut i: usize = 0;
    while i < ids.len()
        invariant
            i <= ids@.len(),
            name_hash@ == blake2b_256(name.spec_bytes()),
            result@.len() == i,
            forall|j: int| 0 <= j < i ==> (#[trigger] result@[j])@ == namespace_entry(name_hash@, ids@[j]),
        decreases ids@.len() - i,
    {
        let mut ns: Vec<u8> = Vec::new();
        let mut k: usize = 0;
        while k < 32
            invariant
                k <= 32,
                ns@ == name_hash@.take(k as int),
            decreases 32 - k,
        {
            ns.push(name_hash[k]);
            proof {
                assert(name_hash@.take(k + 1) =~= name_hash@.take(k as int).push(name_hash@[k as int]));
            }
            k = k + 1;
        }
        ns.push(ids[i]);
        proof {
            assert(name_hash@.take(32) =~= name_hash@);
        }
        let h = hash(ns.as_slice());
        result.push(h);
        i = i + 1;
    }
    result
}

/// The digest of the DHT namespace name, `hyperswarm/dht`.
pub open spec fn dht_name_hash() -> Seq<u8> {
    blake2b_256(seq![0x68u8, 0x79, 0x70, 0x65, 0x72, 0x73, 0x77, 0x61, 0x72, 0x6d, 0x2f, 0x64, 0x68, 0x74])
}

/// The DHT namespace of command `id`.
pub fn dht_namespace(id: u8) -> (h: [u8; 32])
    ensures
        h@ == namespace_entry(dht_name_hash(), id),
{
    let name: [u8; 14] = [0x68, 0x79, 0x70, 0x65, 0x72, 0x73, 0x77, 0x61, 0x72, 0x6d, 0x2f, 0x64, 0x68, 0x74];
    let name_hash = hash(&name);
    let mut ns: Vec<u8> = Vec::new();
    let mut k: usize = 0;
    while k < 32
        invariant
            k <= 32,
            ns@ == name_hash@.take(k as int),
        decreases 32 - k,
    {
        ns.push(name_hash[k]);
        proof {
            assert(name_hash@.take(k + 1) =~= name_hash@.take(k as int).push(name_hash@[k as int]));
        }
        k = k + 1;
    }
    ns.push(id);
    proof {
        assert(name_hash@.take(32) =~= name_hash@);
        assert(name@ =~= seq![0x68u8, 0x79, 0x70, 0x65, 0x72, 0x73, 0x77, 0x61, 0x72, 0x6d, 0x2f, 0x64, 0x68, 0x74]);
    }
    hash(ns.as_slice())
}

/// The namespace announcements are signed in.
pub fn ns_announce() -> (h: [u8; 32])
    ensures
        h@ == namespace_entry(dht_name_hash(), 4),
{
    dht_namespace(4)
}

/// The namespace withdrawals of announcements are signed in.
pub fn ns_unannounce() -> (h: [u8; 32])
    ensures
        h@ == namespace_entry(dht_name_hash(), 5),
{
    dht_namespace(5)
}

/// The namespace mutable records are signed in.
pub fn ns_mutable_put() -> (h: [u8; 32])
    ensures
        h@ == namespace_entry(dht_name_hash(), 6),
{
    dht_namespace(6)
}

/// The namespace of peer handshakes.
pub fn ns_peer_handshake() -> (h: [u8; 32])
    ensures
        h@ == namespace_entry(dht_name_hash(), 0),
{
    dht_namespace(0)
}

/// The namespace of peer hole-punch messages.
pub fn ns_peer_holepunch() -> (h: [u8; 32])
    ensures
        h@ == namespace_entry(dht_name_hash(), 1),
{
    dht_namespace(1)
}

/// Signs `message` with an Ed25519 secret key in the 64-byte format of a
/// seed followed by the public key (`ed25519_dalek::SigningKey::from_bytes`
/// on the seed, then `sign`). Ed25519 signing is deterministic: the signature
/// is a function of the seed and the message.
#[verifier::external_body]
pub fn sign_detached(message: &[u8], secret_key: &[u8; 64]) -> (sig: [u8; 64])
    ensures
        sig@ == ed25519_sign(secret_key@.take(32), message@),
{
    let mut seed = [0u8; 32];
    seed.copy_from_slice(&secret_key[..32]);
    let signing_key = ed25519_dalek::SigningKey::from_bytes(&seed);
    signing_key.sign(message).to_bytes()
}

/// The Ed25519 public key of a 32-byte seed:
/// `SigningKey::from_bytes(seed).verifying_key().to_bytes()`, a function of
/// the seed alone.
#[verifier::external_body]
pub fn public_key_of_seed(seed: &[u8; 32]) -> (pk: [u8; 32])
    ensures
        pk@ == ed25519_public(seed@),
{
    ed25519_dalek::SigningKey::from_bytes(seed).verifying_key().to_bytes()
}

/// Verifies an Ed25519 detached signature (`ed25519_dalek::VerifyingKey::from_bytes`,
/// then `verify`); a public key that is not a curve point verifies nothing.
#[verifier::external_body]
pub fn verify_detached(signature: &[u8; 64], message: &[u8], public_key: &[u8; 32]) -> (ok: bool)
    ensures
        ok == ed25519_verify(signature@, message@, public_key@),
{
    match ed25519_dalek::VerifyingKey::from_bytes(public_key) {
        Ok(verifying_key) => {
            let sig = ed25519_dalek::Signature::from_bytes(signature);
            verifying_key.verify(message, &sig).is_ok()
        },
        Err(_) => false,
    }
}

/// The 64 bytes an announcement signs: the namespace, then the digest of
/// target, id, token, encoded peer and refresh token, one after another.
pub fn ann_signable(
    target: &[u8; 32],
    token: &[u8; 32],
    id: &[u8; 32],
    peer_encoded: &[u8],
    refresh: &[u8],
    ns: &[u8; 32],
) -> (s: [u8; 64])
    ensures
        s@ == ns@ + blake2b_256(target@ + id@ + token@ + peer_encoded@ + refresh@),
{
    let parts: [&[u8]; 5] = [target, id, token, peer_encoded, refresh];
    let h = hash_batch(&parts);
    proof {
        let ps = parts_view(parts@);
        assert(ps =~= seq![target@, id@, token@, peer_encoded@, refresh@]);
        reveal_with_fuel(concat_parts, 6);
        assert(ps.drop_last().drop_last().drop_last().drop_last().drop_last() =~= Seq::<Seq<u8>>::empty());
        assert(concat_parts(ps) =~= target@ + id@ + token@ + peer_encoded@ + refresh@);
    }
    join64(ns, &h)
}

/// The 64 bytes a mutable record signs: the namespace, then the digest of
/// its encoded sequence number and value.
pub fn mutable_signable(ns: &[u8; 32], seq: u64, value: &[u8]) -> (s: [u8; 64])
    requires
        uint_size(seq) + crate::compact_encoding::buffer_size(Some(value@)) <= usize::MAX,
    ensures
        s@ == ns@ + blake2b_256(enc_uint(seq) + enc_buffer(Some(value@))),
{
    let mut state = State::new();
    let _n = value.len();
    proof {
        lemma_uint_roundtrip(seq, Seq::empty());
        lemma_buffer_roundtrip(Some(value@), Seq::empty());
    }
    crate::compact_encoding::preencode_uint(&mut state, seq);
    crate::compact_encoding::preencode_buffer(&mut state, Some(value));
    state.allocate();
    crate::compact_encoding::encode_uint(&mut state, seq);
    crate::compact_encoding::encode_buffer(&mut state, Some(value));
    proof {
        assert(state.buffer@ =~= enc_uint(seq) + enc_buffer(Some(value@)));
    }
    let h = hash(state.buffer.as_slice());
    join64(ns, &h)
}

fn join64(a: &[u8; 32], b: &[u8; 32]) -> (r: [u8; 64])
    ensures
        r@ == a@ + b@,
{
    let mut out = [0u8; 64];
    let mut i: usize = 0;
    while i < 32
        invariant
            i <= 32,
            forall|j: int| 0 <= j < i ==> out@[j] == a@[j],
            forall|j: int| 0 <= j < i ==> out@[32 + j] == b@[j],
        decreases 32 - i,
    {
        out[i] = a[i];
        out[32 + i] = b[i];
        i = i + 1;
    }
    proof {
        assert(out@ =~= a@ + b@);
    }
    out
}

} // verus!
