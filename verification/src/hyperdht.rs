//! The HyperDHT node's key pairs, configuration and operation results.
use vstd::prelude::*;
use crate::compact_encoding::{enc_uint, encode_uint, lemma_uint_roundtrip, preencode_uint, State};
use crate::crypto::{ed25519_public, public_key_of_seed};
use crate::hyperdht_messages::HyperPeer;
use crate::messages::{peers_view, Ipv4Peer};
use crate::hyperdht_messages::UdxInfo;
use crate::hyperdht_payloads::{enc_holepunch_payload, holepunch_payload_hosts, HolepunchPayload, HolepunchPayloadView};
use crate::compact_encoding::valid_host;
use crate::ipv6_text::{parse_ipv4_std, parse_ipv4_strict};
use crate::secure_payload::{opened_payload, sealed, SecurePayload, SecurePayloadError, NONCE_SIZE};
use crate::persistent::PersistentConfig;
use crate::rpc::DhtConfig;

verus! {

/// An Ed25519 key pair in the libsodium layout: the secret key is the seed
/// followed by the public key.
#[derive(Clone)]
pub struct KeyPair {
    /// The public key.
    pub public_key: [u8; 32],
    /// The seed, then the public key.
    pub secret_key: [u8; 64],
}

/// 32 random bytes (`rand::random`). Nothing is stated of them.
#[verifier::external_body]
fn random_seed() -> [u8; 32] {
    rand::random::<[u8; 32]>()
}

impl KeyPair {
    /// The key pair of a seed.
    pub fn from_seed(seed: [u8; 32]) -> (k: Self)
        ensures
            k.public_key@ == ed25519_public(seed@),
            k.secret_key@ == seed@ + ed25519_public(seed@),
    {
        let pk = public_key_of_seed(&seed);
        let mut sk = [0u8; 64];
        let mut i: usize = 0;
        while i < 32
            invariant
                i <= 32,
                sk@.len() == 64,
                forall|j: int| 0 <= j < i ==> sk@[j] == seed@[j],
                forall|j: int| 32 <= j < 64 ==> sk@[j] == 0,
            decreases 32 - i,
        {
            sk[i] = seed[i];
            i = i + 1;
        }
        let mut j: usize = 0;
        while j < 32
            invariant
                j <= 32,
                sk@.len() == 64,
                forall|m: int| 0 <= m < 32 ==> sk@[m] == seed@[m],
                forall|m: int| 0 <= m < j ==> sk@[32 + m] == pk@[m],
            decreases 32 - j,
        {
            sk[32 + j] = pk[j];
            j = j + 1;
        }
        proof {
            assert(sk@ =~= seed@ + pk@);
        }
        KeyPair { public_key: pk, secret_key: sk }
    }

    /// A key pair of a random seed.
    pub fn generate() -> (k: Self)
        ensures
            k.secret_key@.subrange(32, 64) == k.public_key@,
            k.public_key@ == ed25519_public(k.secret_key@.subrange(0, 32)),
    {
        let seed = random_seed();
        let k = Self::from_seed(seed);
        proof {
            assert(k.secret_key@.subrange(0, 32) =~= seed@);
            assert(k.secret_key@.subrange(32, 64) =~= k.public_key@);
        }
        k
    }
}

/// A peer found by a lookup.
#[derive(Debug, Clone)]
#[non_exhaustive]
pub struct LookupResult {
    /// The node that answered.
    pub from: Ipv4Peer,
    /// The address the node saw us at.
    pub to: Option<Ipv4Peer>,
    /// The peers the node holds for the topic.
    pub peers: Vec<HyperPeer>,
}

/// The result of an announce.
#[derive(Debug, Clone)]
#[non_exhaustive]
pub struct AnnounceResult {
    /// The nodes announced to.
    pub closest_nodes: Vec<Ipv4Peer>,
}

/// The result of an immutable put.
#[derive(Debug, Clone)]
#[non_exhaustive]
pub struct ImmutablePutResult {
    /// The hash the value is stored under.
    pub hash: [u8; 32],
    /// The nodes written to.
    pub closest_nodes: Vec<Ipv4Peer>,
}

/// The result of a mutable put.
#[derive(Debug, Clone)]
#[non_exhaustive]
pub struct MutablePutResult {
    /// The key the record is stored under.
    pub public_key: [u8; 32],
    /// The nodes written to.
    pub closest_nodes: Vec<Ipv4Peer>,
    /// The sequence number written.
    pub seq: u64,
    /// The signature of the value.
    pub signature: [u8; 64],
}

/// The result of a mutable get.
#[derive(Debug, Clone)]
#[non_exhaustive]
pub struct MutableGetResult {
    /// The value.
    pub value: Vec<u8>,
    /// Its sequence number.
    pub seq: u64,
    /// Its signature.
    pub signature: [u8; 64],
    /// The node that answered.
    pub from: Ipv4Peer,
}

/// How the server side of a node answers handshakes.
#[non_exhaustive]
pub struct ServerConfig {
    /// The server's key pair.
    pub key_pair: KeyPair,
    /// The firewall class announced to peers.
    pub firewall: u64,
}

impl ServerConfig {
    /// A server configuration.
    pub fn new(key_pair: KeyPair, firewall: u64) -> (c: Self)
        ensures
            c.key_pair == key_pair,
            c.firewall == firewall,
    {
        ServerConfig { key_pair, firewall }
    }
}

/// The public bootstrap nodes, as `suggestedIp@hostname:port`.
pub const DEFAULT_BOOTSTRAP: [&'static str; 3] = [
    "88.99.3.86@node1.hyperdht.org:49737",
    "142.93.90.113@node2.hyperdht.org:49737",
    "138.68.147.8@node3.hyperdht.org:49737",
];

/// How a HyperDHT node is set up.
#[derive(Debug, Clone)]
#[non_exhaustive]
pub struct HyperDhtConfig {
    /// The DHT transport and bootstrap settings.
    pub dht: DhtConfig,
    /// The storage settings.
    pub persistent: PersistentConfig,
}

impl Default for HyperDhtConfig {
    /// The default DHT and storage settings.
    fn default() -> (c: Self)
        ensures
            c.dht.bootstrap@.len() == 0,
            c.dht.port == 0,
            c.dht.host@ == "0.0.0.0"@,
            c.dht.concurrency == 10,
            c.persistent.max_records == 65536,
            c.persistent.max_per_key == 20,
    {
        HyperDhtConfig { dht: DhtConfig::default(), persistent: PersistentConfig::default() }
    }
}

impl HyperDhtConfig {
    /// The default settings with the public bootstrap nodes.
    pub fn with_public_bootstrap() -> (c: Self)
        ensures
            c.dht.bootstrap@.len() == 3,
            c.dht.bootstrap@[0]@ == DEFAULT_BOOTSTRAP[0]@,
            c.dht.bootstrap@[1]@ == DEFAULT_BOOTSTRAP[1]@,
            c.dht.bootstrap@[2]@ == DEFAULT_BOOTSTRAP[2]@,
            c.dht.port == 0,
            c.dht.host@ == "0.0.0.0"@,
            c.dht.firewalled,
            c.persistent.max_records == 65536,
    {
        let mut dht = DhtConfig::default();
        let mut bootstrap: Vec<String> = Vec::new();
        bootstrap.push(DEFAULT_BOOTSTRAP[0].to_owned());
        bootstrap.push(DEFAULT_BOOTSTRAP[1].to_owned());
        bootstrap.push(DEFAULT_BOOTSTRAP[2].to_owned());
        dht.bootstrap = bootstrap;
        HyperDhtConfig { dht, persistent: PersistentConfig::default() }
    }
}

/// The compact encoding of `v`, alone in a buffer.
pub fn encode_compact_uint(v: u64) -> (b: Vec<u8>)
    ensures
        b@ == enc_uint(v),
{
    let mut state = State::new();
    preencode_uint(&mut state, v);
    state.allocate();
    proof {
        lemma_uint_roundtrip(v, Seq::empty());
    }
    encode_uint(&mut state, v);
    proof {
        assert(state.buffer@ =~= enc_uint(v));
    }
    state.buffer
}

// ── The server's hole-punch sessions ────────────────────────────────────────

/// What a server keeps of a peer after its handshake.
pub struct ServerPeerState {
    /// The secret hole-punch payloads are sealed with.
    pub holepunch_secret: [u8; 32],
    /// The peer's static public key.
    pub remote_public_key: [u8; 32],
    /// Where the peer's handshake came from.
    pub client_address: Ipv4Peer,
    /// The local stream id handed to the peer.
    pub local_stream_id: u32,
    /// The peer's UDX details.
    pub remote_udx: Option<UdxInfo>,
}

/// The per-server record of peers that completed a handshake, one entry per
/// remote public key.
pub struct ServerSession {
    holepunch_secrets: Vec<ServerPeerState>,
}

/// Whether no public key occurs twice.
pub open spec fn keys_distinct(states: Seq<ServerPeerState>) -> bool {
    forall|i: int, j: int|
        0 <= i < states.len() && 0 <= j < states.len() && i != j ==> #[trigger] states[i].remote_public_key@
            != #[trigger] states[j].remote_public_key@
}

/// Whether `payload` opens under the secret of `state`.
pub open spec fn opens_under(state: ServerPeerState, payload: Seq<u8>) -> bool {
    opened_payload(state.holepunch_secret@, payload) is Ok
}

/// The hole-punch reply a server sends: no error, its firewall, the round
/// and punching flag of the remote payload, the peer's address as both its
/// address list and its remote address, the peer's token and the remote's.
pub open spec fn holepunch_reply_of(
    firewall: u64,
    remote: HolepunchPayloadView,
    peer: (Seq<char>, u16),
    token: Seq<u8>,
) -> HolepunchPayloadView {
    HolepunchPayloadView {
        error: 0,
        firewall,
        round: remote.round,
        connected: false,
        punching: remote.punching,
        addresses: Some(seq![peer]),
        remote_address: Some(peer),
        token: Some(token),
        remote_token: remote.remote_token_of(),
    }
}

/// Whether answering `payload` under `secret` fails after it opened: its
/// round does not fit the byte planned for it, the peer's host is not an
/// IPv4 address, or the reply (with `token`) does not seal.
pub open spec fn answer_fails(secret: Seq<u8>, payload: Seq<u8>, firewall: u64, peer: (Seq<char>, u16), token: Seq<u8>) -> bool {
    match opened_payload(secret, payload) {
        Ok(v) => v.round > 0xfc || !valid_host(peer.0) || exists|nonce: Seq<u8>|
            nonce.len() == NONCE_SIZE && #[trigger] sealed(
                secret,
                nonce,
                enc_holepunch_payload(holepunch_reply_of(firewall, v, peer, token)),
            ) is Err,
        Err(_) => false,
    }
}

impl HolepunchPayloadView {
    /// The token of the payload, which the reply returns as its remote token.
    pub open spec fn remote_token_of(self) -> Option<Seq<u8>> {
        self.token
    }
}

impl ServerSession {
    /// The entries, in the order they were first inserted.
    pub closed spec fn states(&self) -> Seq<ServerPeerState> {
        self.holepunch_secrets@
    }

    /// The session's invariant: one entry per remote public key.
    pub closed spec fn wf(&self) -> bool {
        keys_distinct(self.holepunch_secrets@)
    }

    /// An empty session.
    pub fn new() -> (s: Self)
        ensures
            s.wf(),
            s.states().len() == 0,
    {
        ServerSession { holepunch_secrets: Vec::new() }
    }

    /// The number of peers.
    pub fn len(&self) -> (n: usize)
        ensures
            n == self.states().len(),
    {
        self.holepunch_secrets.len()
    }

    /// Records `state` under its remote public key, replacing the entry of
    /// that key if there is one.
    pub fn insert(&mut self, state: ServerPeerState)
        requires
            old(self).wf(),
        ensures
            final(self).wf(),
            (exists|i: int|
                0 <= i < old(self).states().len() && #[trigger] old(self).states()[i].remote_public_key@
                    == state.remote_public_key@) ==> exists|i: int|
                0 <= i < old(self).states().len() && #[trigger] old(self).states()[i].remote_public_key@
                    == state.remote_public_key@ && final(self).states() == old(self).states().update(i, state),
            (forall|i: int|
                0 <= i < old(self).states().len() ==> #[trigger] old(self).states()[i].remote_public_key@
                    != state.remote_public_key@) ==> final(self).states() == old(self).states().push(state),
    {
        let n = self.holepunch_secrets.len();
        let mut i: usize = 0;
        while i < n
            invariant
                i <= n == self.holepunch_secrets@.len(),
                self.holepunch_secrets@ == old(self).holepunch_secrets@,
                keys_distinct(old(self).holepunch_secrets@),
                forall|j: int| 0 <= j < i ==> #[trigger] self.holepunch_secrets@[j].remote_public_key@ != state.remote_public_key@,
            decreases n - i,
        {
            if crate::blind_relay::same_token(&self.holepunch_secrets[i].remote_public_key, &state.remote_public_key) {
                let ghost old_states = self.holepunch_secrets@;
                let ghost key = state.remote_public_key@;
                self.holepunch_secrets.set(i, state);
                proof {
                    assert forall|a: int, b: int|
                        0 <= a < self.holepunch_secrets@.len() && 0 <= b < self.holepunch_secrets@.len() && a != b
                            implies #[trigger] self.holepunch_secrets@[a].remote_public_key@
                        != #[trigger] self.holepunch_secrets@[b].remote_public_key@ by {
                        if a == i {
                            assert(old_states[b].remote_public_key@ != old_states[i as int].remote_public_key@);
                        } else if b == i {
                            assert(old_states[a].remote_public_key@ != old_states[i as int].remote_public_key@);
                        }
                    }
                    assert(old_states[i as int].remote_public_key@ == key);
                }
                return;
            }
            i = i + 1;
        }
        self.holepunch_secrets.push(state);
        proof {
            assert(forall|j: int| 0 <= j < old(self).holepunch_secrets@.len() ==> #[trigger] old(self).holepunch_secrets@[j].remote_public_key@ != state.remote_public_key@);
        }
    }

    /// The first entry whose secret opens `payload`, if any.
    pub fn matching_state(&self, payload: &[u8]) -> (r: Option<usize>)
        ensures
            match r {
                Some(i) => i < self.states().len() && opens_under(self.states()[i as int], payload@) && forall|j: int|
                    0 <= j < i ==> !opens_under(#[trigger] self.states()[j], payload@),
                None => forall|j: int| 0 <= j < self.states().len() ==> !opens_under(#[trigger] self.states()[j], payload@),
            },
    {
        let n = self.holepunch_secrets.len();
        let mut i: usize = 0;
        while i < n
            invariant
                i <= n == self.holepunch_secrets@.len(),
                forall|j: int| 0 <= j < i ==> !opens_under(#[trigger] self.holepunch_secrets@[j], payload@),
            decreases n - i,
        {
            let sp = SecurePayload::new(self.holepunch_secrets[i].holepunch_secret);
            if sp.decrypt(payload).is_ok() {
                return Some(i);
            }
            i = i + 1;
        }
        None
    }

    /// Answers a hole-punch payload: the entry whose secret opens it, the
    /// payload, and the sealed reply (under that secret, with a random nonce).
    /// `None` where no entry opens it, or the reply does not seal.
    pub fn answer_holepunch(&self, firewall: u64, payload: &[u8], peer_address: &Ipv4Peer) -> (r: Option<(usize, HolepunchPayload, Vec<u8>)>)
        requires
            firewall <= 0xfc,
        ensures
            match r {
                Some((i, remote, sealed_reply)) => {
                    &&& i < self.states().len()
                    &&& opened_payload(self.states()[i as int].holepunch_secret@, payload@) == Ok::<
                        HolepunchPayloadView,
                        SecurePayloadError,
                    >(remote@)
                    &&& forall|j: int| 0 <= j < i ==> !opens_under(#[trigger] self.states()[j], payload@)
                    &&& exists|nonce: Seq<u8>, token: Seq<u8>|
                        nonce.len() == NONCE_SIZE && sealed(
                            self.states()[i as int].holepunch_secret@,
                            nonce,
                            enc_holepunch_payload(holepunch_reply_of(firewall, remote@, peer_address@, token)),
                        ) == Ok::<Seq<u8>, SecurePayloadError>(sealed_reply@)
                },
                None => (forall|j: int| 0 <= j < self.states().len() ==> !opens_under(#[trigger] self.states()[j], payload@))
                    || exists|i: int, token: Seq<u8>|
                    0 <= i < self.states().len() && #[trigger] answer_fails(
                        self.states()[i].holepunch_secret@,
                        payload@,
                        firewall,
                        peer_address@,
                        token,
                    ),
            },
            (forall|j: int| 0 <= j < self.states().len() ==> !opens_under(#[trigger] self.states()[j], payload@)) ==> r is None,
    {
        let i = match self.matching_state(payload) {
            Some(i) => i,
            None => {
                return None;
            },
        };
        let sp = SecurePayload::new(self.holepunch_secrets[i].holepunch_secret);
        let remote = match sp.decrypt(payload) {
            Ok(p) => p,
            Err(_) => {
                return None;
            },
        };
        let token = sp.token(peer_address.host.as_str());
        let reply = holepunch_reply(firewall, &remote, peer_address, token);
        if remote.round > 0xfc {
            proof {
                assert(answer_fails(self.states()[i as int].holepunch_secret@, payload@, firewall, peer_address@, token@));
            }
            return None;
        }
        match sp.encrypt(&reply) {
            Ok(v) => {
                proof {
                    assert(reply@ == holepunch_reply_of(firewall, remote@, peer_address@, token@));
                }
                Some((i, remote, v))
            },
            Err(_) => {
                proof {
                    assert(reply@ == holepunch_reply_of(firewall, remote@, peer_address@, token@));
                    assert(holepunch_payload_hosts(reply@) =~= seq![peer_address@, peer_address@]);
                    assert(answer_fails(self.states()[i as int].holepunch_secret@, payload@, firewall, peer_address@, token@));
                }
                None
            },
        }
    }
}

/// The reply to a hole-punch payload, as [`holepunch_reply_of`] says.
pub fn holepunch_reply(firewall: u64, remote: &HolepunchPayload, peer_address: &Ipv4Peer, token: [u8; 32]) -> (r: HolepunchPayload)
    ensures
        r@ == holepunch_reply_of(firewall, remote@, peer_address@, token@),
{
    let a = Ipv4Peer { host: peer_address.host.clone(), port: peer_address.port };
    let b = Ipv4Peer { host: peer_address.host.clone(), port: peer_address.port };
    let addresses = vec![a];
    proof {
        assert(peers_view(addresses@) =~= seq![peer_address@]);
    }
    HolepunchPayload {
        error: 0,
        firewall,
        round: remote.round,
        connected: false,
        punching: remote.punching,
        addresses: Some(addresses),
        remote_address: Some(b),
        token: Some(token),
        remote_token: remote.token,
    }
}

// ── Private and reserved addresses ──────────────────────────────────────────

/// Whether four bytes are a loopback, private (RFC 1918), link-local,
/// broadcast, unspecified, documentation or carrier-grade NAT address.
pub open spec fn reserved_ipv4(b: Seq<u8>) -> bool {
    ||| b[0] == 127
    ||| b[0] == 10
    ||| (b[0] == 172 && 16 <= b[1] <= 31)
    ||| (b[0] == 192 && b[1] == 168)
    ||| (b[0] == 169 && b[1] == 254)
    ||| (b[0] == 255 && b[1] == 255 && b[2] == 255 && b[3] == 255)
    ||| (b[0] == 0 && b[1] == 0 && b[2] == 0 && b[3] == 0)
    ||| (b[0] == 192 && b[1] == 0 && b[2] == 2)
    ||| (b[0] == 198 && b[1] == 51 && b[2] == 100)
    ||| (b[0] == 203 && b[1] == 0 && b[2] == 113)
    ||| (b[0] == 100 && 64 <= b[1] <= 127)
}

/// Whether a host is not a public address: text that is not a dotted-quad
/// IPv4 address, or a reserved (bogon) one.
pub fn is_addr_private(host: &str) -> (r: bool)
    ensures
        r == match parse_ipv4_std(host@) {
            None => true,
            Some(b) => reserved_ipv4(b),
        },
{
    let chars = crate::text::str_chars(host);
    let b = match parse_ipv4_strict(&chars) {
        None => {
            return true;
        },
        Some(b) => b,
    };
    b[0] == 127 || b[0] == 10 || (b[0] == 172 && 16 <= b[1] && b[1] <= 31) || (b[0] == 192 && b[1] == 168) || (
    b[0] == 169 && b[1] == 254) || (b[0] == 255 && b[1] == 255 && b[2] == 255 && b[3] == 255) || (b[0] == 0 && b[1]
        == 0 && b[2] == 0 && b[3] == 0) || (b[0] == 192 && b[1] == 0 && b[2] == 2) || (b[0] == 198 && b[1] == 51 && b[2]
        == 100) || (b[0] == 203 && b[1] == 0 && b[2] == 113) || (b[0] == 100 && 64 <= b[1] && b[1] <= 127)
}

impl KeyPair {
    /// The same key pair, as the Noise handshakes take it.
    pub fn to_noise_keypair(&self) -> (k: crate::noise::Keypair)
        ensures
            k.public_key == self.public_key,
            k.secret_key == self.secret_key,
    {
        crate::noise::Keypair { public_key: self.public_key, secret_key: self.secret_key }
    }
}

} // verus!
