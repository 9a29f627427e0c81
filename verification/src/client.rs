//! What a HyperDHT client decides while it connects to a peer and while it
//! stores records on other nodes: the nodes it tries and in which order, the
//! path a connection takes after the handshake, the hole-punch rounds, and
//! the signed values it sends with announce, unannounce and mutable put.
//! The network requests themselves are made by the caller, which hands the
//! replies back.
use vstd::prelude::*;
use crate::messages::{peers_view, Ipv4Peer};
use crate::hyperdht_payloads::{HolepunchPayload, NoisePayload, NoisePayloadView};
use crate::hyperdht_messages::FIREWALL_OPEN;
use crate::text::same_str;
use crate::ipv6_text::parse_ipv4_std;
use crate::hyperdht::{is_addr_private, reserved_ipv4};
use crate::query::clone_peer;
use crate::hyperdht::KeyPair;
use crate::hyperdht_messages::{
    encode_announce_to_bytes, encode_hyper_peer_to_bytes, encode_mutable_put_request_to_bytes, enc_announce,
    enc_hyper_peer, enc_mutable_put_request, AnnounceMessage, AnnounceView, HyperPeer, HyperPeerView,
    MutablePutRequest, MutablePutRequestView, decode_mutable_get_response_from_bytes, parse_mutable_get_response,
    MutableGetResponse, MutableGetResponseView, decode_lookup_raw_reply_from_bytes, parse_lookup_raw_reply,
    HyperPeer as PeerRecord, decode_hyper_peer_from_bytes, parse_hyper_peer,
};
use crate::compact_encoding::{enc_buffer, enc_uint, first_bad_host, valid_peers, EncodingError};
use crate::crypto::{
    ann_signable, blake2b_256, dht_name_hash, ed25519_sign, mutable_signable, namespace_entry, ns_announce,
    ns_mutable_put, ns_unannounce, sign_detached, ed25519_verify, hash, verify_detached,
};

verus! {

/// A peer address as plain values.
pub type PeerView = (Seq<char>, u16);

// ── Which nodes to try ──────────────────────────────────────────────────────

/// `tried` followed by the addresses of `more` that are not in it yet, in
/// order, each once.
pub open spec fn add_untried(tried: Seq<PeerView>, more: Seq<PeerView>) -> Seq<PeerView>
    decreases more.len(),
{
    if more.len() == 0 {
        tried
    } else {
        let t = add_untried(tried, more.drop_last());
        if t.contains(more.last()) {
            t
        } else {
            t.push(more.last())
        }
    }
}

/// The candidates a FIND_NODE query gives: for each reply, the node that
/// answered, then the closer nodes it named that are not listed yet.
pub open spec fn reply_candidates(replies: Seq<(PeerView, Seq<PeerView>)>) -> Seq<PeerView>
    decreases replies.len(),
{
    if replies.len() == 0 {
        Seq::empty()
    } else {
        let c = reply_candidates(replies.drop_last());
        add_untried(c.push(replies.last().0), replies.last().1)
    }
}

/// The nodes a connection attempt goes through, in order: the given relays,
/// then the FIND_NODE candidates that are not among the nodes before them.
pub open spec fn connect_order(relays: Seq<PeerView>, replies: Seq<(PeerView, Seq<PeerView>)>) -> Seq<PeerView> {
    add_untried(relays, reply_candidates(replies))
}

/// A FIND_NODE reply as plain values: who answered and the closer nodes it named.
pub open spec fn replies_view(replies: Seq<(Ipv4Peer, Vec<Ipv4Peer>)>) -> Seq<(PeerView, Seq<PeerView>)> {
    replies.map_values(|r: (Ipv4Peer, Vec<Ipv4Peer>)| (r.0@, peers_view(r.1@)))
}

/// Whether `p` is among `v`, by host and port.
pub fn contains_peer(v: &Vec<Ipv4Peer>, p: &Ipv4Peer) -> (b: bool)
    ensures
        b == peers_view(v@).contains(p@),
{
    let mut i: usize = 0;
    while i < v.len()
        invariant
            i <= v@.len(),
            forall|j: int| 0 <= j < i ==> peers_view(v@)[j] != p@,
        decreases v@.len() - i,
    {
        if v[i].port == p.port && same_str(v[i].host.as_str(), p.host.as_str()) {
            proof {
                assert(peers_view(v@)[i as int] == p@);
            }
            return true;
        }
        i = i + 1;
    }
    proof {
        if peers_view(v@).contains(p@) {
            let j = choose|j: int| 0 <= j < peers_view(v@).len() && peers_view(v@)[j] == p@;
            assert(peers_view(v@)[j] != p@);
        }
    }
    false
}

/// Appends to `tried` the addresses of `more` it does not hold yet (see
/// [`add_untried`]).
pub fn extend_untried(tried: &mut Vec<Ipv4Peer>, more: &[Ipv4Peer])
    ensures
        peers_view(final(tried)@) == add_untried(peers_view(old(tried)@), peers_view(more@)),
{
    let ghost t0 = peers_view(tried@);
    let ghost m = peers_view(more@);
    let mut i: usize = 0;
    while i < more.len()
        invariant
            i <= more@.len(),
            m == peers_view(more@),
            peers_view(tried@) == add_untried(t0, m.take(i as int)),
        decreases more@.len() - i,
    {
        proof {
            assert(m.take(i + 1).drop_last() =~= m.take(i as int));
            assert(m.take(i + 1).last() == more@[i as int]@);
        }
        if !contains_peer(tried, &more[i]) {
            tried.push(clone_peer(&more[i]));
            proof {
                assert(peers_view(tried@) =~= add_untried(t0, m.take(i as int)).push(more@[i as int]@));
            }
        }
        i = i + 1;
    }
    proof {
        assert(m.take(i as int) =~= m);
    }
}

/// The nodes to try, in order, when connecting to a peer: `relays` first,
/// then every node of the FIND_NODE `replies` (the node that answered, then
/// the closer nodes it named), each address once (see [`connect_order`]).
pub fn connect_candidates(relays: &[Ipv4Peer], replies: &[(Ipv4Peer, Vec<Ipv4Peer>)]) -> (r: Vec<Ipv4Peer>)
    ensures
        peers_view(r@) == connect_order(peers_view(relays@), replies_view(replies@)),
{
    let ghost rv = replies_view(replies@);
    let mut cands: Vec<Ipv4Peer> = Vec::new();
    let mut i: usize = 0;
    proof {
        assert(peers_view(cands@) =~= reply_candidates(rv.take(0)));
    }
    while i < replies.len()
        invariant
            i <= replies@.len(),
            rv == replies_view(replies@),
            peers_view(cands@) == reply_candidates(rv.take(i as int)),
        decreases replies@.len() - i,
    {
        proof {
            assert(rv.take(i + 1).drop_last() =~= rv.take(i as int));
            assert(rv.take(i + 1).last() == rv[i as int]);
        }
        cands.push(clone_peer(&replies[i].0));
        proof {
            assert(peers_view(cands@) =~= reply_candidates(rv.take(i as int)).push(rv[i as int].0));
        }
        extend_untried(&mut cands, replies[i].1.as_slice());
        i = i + 1;
    }
    proof {
        assert(rv.take(i as int) =~= rv);
    }
    let mut out: Vec<Ipv4Peer> = Vec::new();
    let mut j: usize = 0;
    while j < relays.len()
        invariant
            j <= relays@.len(),
            out@ == relays@.take(j as int),
        decreases relays@.len() - j,
    {
        out.push(clone_peer(&relays[j]));
        j = j + 1;
        proof {
            assert(out@ =~= relays@.take(j as int));
        }
    }
    proof {
        assert(relays@.take(j as int) =~= relays@);
    }
    extend_untried(&mut out, cands.as_slice());
    out
}

// ── The path after the handshake ────────────────────────────────────────────

/// How a connection proceeds once the Noise handshake is done.
pub enum ConnectPath {
    /// The remote reported an error: it rejected the connection.
    Rejected,
    /// The remote asks to be reached through a third node, with addresses
    /// where that node may be found.
    RelayThrough { public_key: [u8; 32], relay_addresses: Vec<Ipv4Peer> },
    /// Connect straight to this address.
    Direct(Ipv4Peer),
    /// Run hole-punch rounds first.
    Holepunch,
}

/// A connection path as plain values.
pub enum PathView {
    Rejected,
    RelayThrough { public_key: Seq<u8>, relay_addresses: Seq<PeerView> },
    Direct(PeerView),
    Holepunch,
}

impl View for ConnectPath {
    type V = PathView;

    open spec fn view(&self) -> PathView {
        match self {
            ConnectPath::Rejected => PathView::Rejected,
            ConnectPath::RelayThrough { public_key, relay_addresses } => PathView::RelayThrough {
                public_key: public_key@,
                relay_addresses: peers_view(relay_addresses@),
            },
            ConnectPath::Direct(p) => PathView::Direct(p@),
            ConnectPath::Holepunch => PathView::Holepunch,
        }
    }
}

/// A host that is not a public IPv4 address.
pub open spec fn private_host(h: Seq<char>) -> bool {
    match parse_ipv4_std(h) {
        None => true,
        Some(b) => reserved_ipv4(b),
    }
}

/// The first address of `s` with a public host, if any.
pub open spec fn first_public(s: Seq<PeerView>) -> Option<PeerView>
    decreases s.len(),
{
    if s.len() == 0 {
        None
    } else if !private_host(s[0].0) {
        Some(s[0])
    } else {
        first_public(s.drop_first())
    }
}

/// The public key of the node a remote asks to be reached through.
pub open spec fn relay_key(rt: Option<(u64, Seq<u8>, Seq<u8>)>) -> Seq<u8> {
    match rt {
        Some((_v, k, _t)) => k,
        None => Seq::empty(),
    }
}

/// The path a connection takes after the handshake: rejected when the
/// remote reports an error; through a third node when the remote asks for
/// one; directly when the handshake was not relayed, the remote's firewall
/// is open, the remote offers no hole-punch relays, or both sides share a
/// host, to the remote's first public address or else the server's
/// address; otherwise by hole-punching.
pub open spec fn path_spec(relayed: bool, remote: NoisePayloadView, server: PeerView, client: PeerView) -> PathView {
    if remote.error != 0 {
        PathView::Rejected
    } else if remote.relay_through is Some {
        PathView::RelayThrough {
            public_key: relay_key(remote.relay_through),
            relay_addresses: match remote.relay_addresses {
                Some(a) => a,
                None => Seq::empty(),
            },
        }
    } else if !relayed || remote.firewall == FIREWALL_OPEN || !(remote.holepunch matches Some(h) && h.1.len() > 0)
        || server.0 == client.0 {
        PathView::Direct(
            match first_public(remote.addresses4) {
                Some(a) => a,
                None => server,
            },
        )
    } else {
        PathView::Holepunch
    }
}

/// Decides the path of a connection after the handshake (see [`path_spec`]).
pub fn connection_path(relayed: bool, remote: &NoisePayload, server: &Ipv4Peer, client: &Ipv4Peer) -> (r: ConnectPath)
    ensures
        r@ == path_spec(relayed, remote@, server@, client@),
{
    if remote.error != 0 {
        return ConnectPath::Rejected;
    }
    match &remote.relay_through {
        Some(rt) => {
            let relay_addresses = match &remote.relay_addresses {
                Some(a) => crate::query::clone_peers(a),
                None => Vec::new(),
            };
            proof {
                assert(peers_view(Seq::<Ipv4Peer>::empty()) =~= Seq::<PeerView>::empty());
            }
            return ConnectPath::RelayThrough { public_key: rt.public_key, relay_addresses };
        },
        None => {},
    }
    let holepunchable = match &remote.holepunch {
        Some(h) => h.relays.len() > 0,
        None => false,
    };
    if !relayed || remote.firewall == FIREWALL_OPEN || !holepunchable || same_str(server.host.as_str(), client.host.as_str()) {
        let ghost a = peers_view(remote.addresses4@);
        let mut i: usize = 0;
        proof {
            assert(a.skip(0) =~= a);
            assert(path_spec(relayed, remote@, server@, client@) == PathView::Direct(
                match first_public(a) {
                    Some(x) => x,
                    None => server@,
                },
            ));
        }
        while i < remote.addresses4.len()
            invariant
                path_spec(relayed, remote@, server@, client@) == PathView::Direct(
                    match first_public(a) {
                        Some(x) => x,
                        None => server@,
                    },
                ),
                i <= remote.addresses4@.len(),
                a == peers_view(remote.addresses4@),
                first_public(a) == first_public(a.skip(i as int)),
            decreases remote.addresses4@.len() - i,
        {
            proof {
                assert(a.skip(i as int)[0] == remote.addresses4@[i as int]@);
                assert(a.skip(i as int).drop_first() =~= a.skip(i + 1));
            }
            if !is_addr_private(remote.addresses4[i].host.as_str()) {
                proof {
                    assert(!private_host(a.skip(i as int)[0].0));
                    assert(first_public(a.skip(i as int)) == Some(a.skip(i as int)[0]));
                }
                return ConnectPath::Direct(clone_peer(&remote.addresses4[i]));
            }
            i = i + 1;
        }
        proof {
            assert(a.skip(i as int).len() == 0);
        }
        return ConnectPath::Direct(clone_peer(server));
    }
    ConnectPath::Holepunch
}

// ── Signed values sent to other nodes ───────────────────────────────────────

/// The peer record an announcement carries: the key and at most the first
/// three relay addresses.
pub open spec fn announced_peer(public_key: Seq<u8>, relays: Seq<PeerView>) -> HyperPeerView {
    HyperPeerView { public_key, relay_addresses: if relays.len() > 3 { relays.take(3) } else { relays } }
}

/// An announcement (command 4) or withdrawal (command 5) of `peer`, signed
/// with the seed of `secret_key` over the command's namespace and the digest
/// of target, node id, token and encoded peer.
pub open spec fn signed_announcement(
    cmd: u8,
    target: Seq<u8>,
    token: Seq<u8>,
    node_id: Seq<u8>,
    secret_key: Seq<u8>,
    peer: HyperPeerView,
) -> AnnounceView {
    AnnounceView {
        peer: Some(peer),
        refresh: None,
        signature: Some(
            ed25519_sign(
                secret_key.take(32),
                namespace_entry(dht_name_hash(), cmd) + blake2b_256(target + node_id + token + enc_hyper_peer(peer)),
            ),
        ),
        bump: 0,
    }
}

/// Copies of the first `n` peers of `v`.
fn first_peers(v: &[Ipv4Peer], n: usize) -> (r: Vec<Ipv4Peer>)
    requires
        n <= v@.len(),
    ensures
        r@ == v@.take(n as int),
{
    let mut r: Vec<Ipv4Peer> = Vec::new();
    let mut i: usize = 0;
    while i < n
        invariant
            i <= n <= v@.len(),
            r@ == v@.take(i as int),
        decreases n - i,
    {
        r.push(clone_peer(&v[i]));
        i = i + 1;
        proof {
            assert(r@ =~= v@.take(i as int));
        }
    }
    r
}

/// Signs and encodes an announcement of `key_pair`'s public key under
/// `target`, for the node `node_id` that handed out `token`, with at most the
/// first three of `relays` (see [`signed_announcement`]). It fails, with the
/// error for the first bad host, when a kept relay host is not an IPv4 address.
pub fn announce_value(target: &[u8; 32], token: &[u8; 32], node_id: &[u8; 32], key_pair: &KeyPair, relays: &[Ipv4Peer]) -> (r: Result<Vec<u8>, EncodingError>)
    ensures
        ({
            let peer = announced_peer(key_pair.public_key@, peers_view(relays@));
            &&& r is Ok <==> valid_peers(peer.relay_addresses)
            &&& r matches Ok(b) ==> b@ == enc_announce(
                signed_announcement(4, target@, token@, node_id@, key_pair.secret_key@, peer),
            )
            &&& r matches Err(e) ==> first_bad_host(peer.relay_addresses, e)
        }),
{
    let n: usize = if relays.len() > 3 {
        3
    } else {
        relays.len()
    };
    let kept = first_peers(relays, n);
    let peer = HyperPeer { public_key: key_pair.public_key, relay_addresses: kept };
    proof {
        let pv = announced_peer(key_pair.public_key@, peers_view(relays@));
        assert(peers_view(relays@.take(n as int)) =~= pv.relay_addresses);
        assert(peer@ == pv);
    }
    let peer_encoded = encode_hyper_peer_to_bytes(&peer)?;
    let empty: [u8; 0] = [];
    let ns = ns_announce();
    let signable = ann_signable(target, token, node_id, peer_encoded.as_slice(), empty.as_slice(), &ns);
    proof {
        assert(empty@ =~= Seq::<u8>::empty());
        assert(target@ + node_id@ + token@ + peer_encoded@ + empty@ =~= target@ + node_id@ + token@ + peer_encoded@);
    }
    let signature = sign_detached(&signable, &key_pair.secret_key);
    let ann = AnnounceMessage { peer: Some(peer), refresh: None, signature: Some(signature), bump: 0 };
    encode_announce_to_bytes(&ann)
}

/// Signs and encodes the withdrawal of `key_pair`'s announcement under
/// `target`, for the node `node_id` that handed out `token`: the peer record
/// carries no relays (see [`signed_announcement`]).
pub fn unannounce_value(target: &[u8; 32], token: &[u8; 32], node_id: &[u8; 32], key_pair: &KeyPair) -> (r: Vec<u8>)
    ensures
        r@ == enc_announce(
            signed_announcement(
                5,
                target@,
                token@,
                node_id@,
                key_pair.secret_key@,
                HyperPeerView { public_key: key_pair.public_key@, relay_addresses: Seq::empty() },
            ),
        ),
{
    let peer = HyperPeer { public_key: key_pair.public_key, relay_addresses: Vec::new() };
    proof {
        assert(peer@.relay_addresses =~= Seq::<PeerView>::empty());
    }
    let peer_encoded = match encode_hyper_peer_to_bytes(&peer) {
        Ok(b) => b,
        Err(_) => {
            proof {
                assert(valid_peers(peer@.relay_addresses));
            }
            Vec::new()
        },
    };
    let empty: [u8; 0] = [];
    let ns = ns_unannounce();
    let signable = ann_signable(target, token, node_id, peer_encoded.as_slice(), empty.as_slice(), &ns);
    proof {
        assert(empty@ =~= Seq::<u8>::empty());
        assert(target@ + node_id@ + token@ + peer_encoded@ + empty@ =~= target@ + node_id@ + token@ + peer_encoded@);
    }
    let signature = sign_detached(&signable, &key_pair.secret_key);
    let ann = AnnounceMessage { peer: Some(peer), refresh: None, signature: Some(signature), bump: 0 };
    match encode_announce_to_bytes(&ann) {
        Ok(b) => b,
        Err(_) => {
            proof {
                assert(valid_peers(crate::hyperdht_messages::opt_relays(ann@.peer)));
            }
            Vec::new()
        },
    }
}

/// A mutable record of `value` at `seq`, signed with the seed of
/// `secret_key` over the namespace of mutable puts and the digest of the
/// encoded sequence number and value.
pub open spec fn signed_put(public_key: Seq<u8>, secret_key: Seq<u8>, seq: u64, value: Seq<u8>) -> MutablePutRequestView {
    MutablePutRequestView {
        public_key,
        seq,
        value,
        signature: ed25519_sign(
            secret_key.take(32),
            namespace_entry(dht_name_hash(), 6) + blake2b_256(enc_uint(seq) + enc_buffer(Some(value))),
        ),
    }
}

/// Signs and encodes a mutable put of `value` at `seq` with `key_pair`;
/// gives the encoded request and its signature (see [`signed_put`]).
pub fn mutable_put_value(key_pair: &KeyPair, value: &[u8], seq: u64) -> (r: (Vec<u8>, [u8; 64]))
    requires
        value@.len() + 120 <= usize::MAX,
    ensures
        r.0@ == enc_mutable_put_request(signed_put(key_pair.public_key@, key_pair.secret_key@, seq, value@)),
        r.1@ == signed_put(key_pair.public_key@, key_pair.secret_key@, seq, value@).signature,
{
    proof {
        crate::compact_encoding::lemma_uint_roundtrip(seq, Seq::empty());
        crate::compact_encoding::lemma_uint_roundtrip(value@.len() as u64, Seq::empty());
    }
    let ns = ns_mutable_put();
    let signable = mutable_signable(&ns, seq, value);
    let signature = sign_detached(&signable, &key_pair.secret_key);
    let put = MutablePutRequest {
        public_key: key_pair.public_key,
        seq,
        value: vstd::slice::slice_to_vec(value),
        signature,
    };
    let bytes = match encode_mutable_put_request_to_bytes(&put) {
        Ok(b) => b,
        Err(_) => Vec::new(),
    };
    (bytes, signature)
}

// ── Hole-punch rounds ───────────────────────────────────────────────────────

/// Where a client's hole-punch attempt stands.
#[derive(Clone, Copy, PartialEq, Eq, Structural)]
pub enum PunchStage {
    /// Nothing sent yet.
    Start,
    /// The probe (round 0) was sent; its reply is awaited.
    Probing,
    /// The punch message (round 1) was sent; its reply is awaited.
    Punching,
    /// The punch was started; whether it worked is awaited.
    Punched,
    /// The socket punched through, or the attempt was aborted.
    Done,
    /// The attempt failed.
    Failed,
}

/// A client's hole-punch attempt: its stage and the token it sends, which
/// binds the server's address to the shared hole-punch secret.
#[derive(Clone, Copy)]
pub struct PunchState {
    pub stage: PunchStage,
    pub token: [u8; 32],
}

/// What happened since the last step.
pub enum PunchEvent {
    /// Start, with this side's firewall as its NAT sampling sees it.
    Begin { firewall: u64 },
    /// The probe's reply: its error code, the remote's payload if the reply
    /// held one that opened with the secret, the host the reply came from,
    /// and this side's firewall now.
    ProbeReply { error: u64, remote: Option<HolepunchPayload>, peer_host: String, firewall: u64 },
    /// The punch message's reply: the remote's payload if it opened, and the
    /// host the reply came from.
    PunchReply { remote: Option<HolepunchPayload>, peer_host: String },
    /// Whether starting the punch worked.
    Punched(bool),
    /// The punch connected to this address.
    Connected(Ipv4Peer),
    /// The puncher gave up.
    Aborted,
    /// No connection within the wait.
    TimedOut,
    /// A request failed or its reply did not validate.
    RequestFailed,
}

/// What the remote told about itself: whether it punches, its firewall, its
/// addresses, and the host its reply came from.
pub struct RemoteUpdate {
    pub punching: bool,
    pub firewall: u64,
    pub addresses: Vec<Ipv4Peer>,
    pub verified_host: String,
}

/// How an attempt ended.
pub enum PunchOutcome {
    /// Connected at this address.
    Connected(Ipv4Peer),
    /// Aborted by the puncher.
    Aborted,
    /// Failed; `destroy` says whether the puncher is to be destroyed.
    Failed { destroy: bool },
}

/// What the caller must do after a step, in this order: tell the puncher
/// about the remote, send a payload (sealed with the secret) as a hole-punch
/// request, start the punch, end the attempt.
pub struct PunchAction {
    pub update: Option<RemoteUpdate>,
    pub send: Option<HolepunchPayload>,
    pub punch: bool,
    pub outcome: Option<PunchOutcome>,
}

/// Nothing to do.
pub open spec fn no_action() -> PunchAction {
    PunchAction { update: None, send: None, punch: false, outcome: None }
}

/// The payload of round `round`: no error, this side's firewall, not yet
/// connected, whether it punches, no addresses, and the token.
pub open spec fn round_payload(firewall: u64, round: u64, punching: bool, token: [u8; 32]) -> HolepunchPayload {
    HolepunchPayload {
        error: 0,
        firewall,
        round,
        connected: false,
        punching,
        addresses: None,
        remote_address: None,
        token: Some(token),
        remote_token: None,
    }
}

/// What a reply tells about the remote: only a payload with addresses does.
pub open spec fn remote_update(remote: Option<HolepunchPayload>, peer_host: String) -> Option<RemoteUpdate> {
    match remote {
        Some(hp) => match hp.addresses {
            Some(addrs) => Some(
                RemoteUpdate { punching: hp.punching, firewall: hp.firewall, addresses: addrs, verified_host: peer_host },
            ),
            None => None,
        },
        None => None,
    }
}

/// One step of a client's hole-punch attempt. It sends the probe (round 0,
/// not punching); a probe reply with an error fails the attempt, any other
/// updates the remote and sends the punch message (round 1, punching); its
/// reply updates the remote and starts the punch; a punch that does not
/// start, or no connection in time, fails the attempt; a connection or an
/// abort ends it. A failed request fails it without destroying the puncher.
/// Any other event leaves the attempt as it is.
pub open spec fn punch_step(s: PunchState, ev: PunchEvent) -> (PunchState, PunchAction) {
    match (s.stage, ev) {
        (PunchStage::Start, PunchEvent::Begin { firewall }) => (
            PunchState { stage: PunchStage::Probing, ..s },
            PunchAction { send: Some(round_payload(firewall, 0, false, s.token)), ..no_action() },
        ),
        (PunchStage::Probing, PunchEvent::ProbeReply { error, remote, peer_host, firewall }) => if error != 0 {
            (
                PunchState { stage: PunchStage::Failed, ..s },
                PunchAction { outcome: Some(PunchOutcome::Failed { destroy: true }), ..no_action() },
            )
        } else {
            (
                PunchState { stage: PunchStage::Punching, ..s },
                PunchAction {
                    update: remote_update(remote, peer_host),
                    send: Some(round_payload(firewall, 1, true, s.token)),
                    ..no_action()
                },
            )
        },
        (PunchStage::Punching, PunchEvent::PunchReply { remote, peer_host }) => (
            PunchState { stage: PunchStage::Punched, ..s },
            PunchAction { update: remote_update(remote, peer_host), punch: true, ..no_action() },
        ),
        (PunchStage::Punched, PunchEvent::Punched(started)) => if started {
            (s, no_action())
        } else {
            (
                PunchState { stage: PunchStage::Failed, ..s },
                PunchAction { outcome: Some(PunchOutcome::Failed { destroy: true }), ..no_action() },
            )
        },
        (PunchStage::Punched, PunchEvent::Connected(addr)) => (
            PunchState { stage: PunchStage::Done, ..s },
            PunchAction { outcome: Some(PunchOutcome::Connected(addr)), ..no_action() },
        ),
        (PunchStage::Punched, PunchEvent::Aborted) => (
            PunchState { stage: PunchStage::Done, ..s },
            PunchAction { outcome: Some(PunchOutcome::Aborted), ..no_action() },
        ),
        (PunchStage::Punched, PunchEvent::TimedOut) => (
            PunchState { stage: PunchStage::Failed, ..s },
            PunchAction { outcome: Some(PunchOutcome::Failed { destroy: true }), ..no_action() },
        ),
        (PunchStage::Probing, PunchEvent::RequestFailed) => (
            PunchState { stage: PunchStage::Failed, ..s },
            PunchAction { outcome: Some(PunchOutcome::Failed { destroy: false }), ..no_action() },
        ),
        (PunchStage::Punching, PunchEvent::RequestFailed) => (
            PunchState { stage: PunchStage::Failed, ..s },
            PunchAction { outcome: Some(PunchOutcome::Failed { destroy: false }), ..no_action() },
        ),
        _ => (s, no_action()),
    }
}

/// The payload of a round.
fn make_round_payload(firewall: u64, round: u64, punching: bool, token: [u8; 32]) -> (p: HolepunchPayload)
    ensures
        p == round_payload(firewall, round, punching, token),
{
    HolepunchPayload {
        error: 0,
        firewall,
        round,
        connected: false,
        punching,
        addresses: None,
        remote_address: None,
        token: Some(token),
        remote_token: None,
    }
}

/// What a reply tells about the remote (see [`remote_update`]).
fn make_remote_update(remote: Option<HolepunchPayload>, peer_host: String) -> (u: Option<RemoteUpdate>)
    ensures
        u == remote_update(remote, peer_host),
{
    match remote {
        Some(hp) => match hp.addresses {
            Some(addrs) => Some(
                RemoteUpdate { punching: hp.punching, firewall: hp.firewall, addresses: addrs, verified_host: peer_host },
            ),
            None => None,
        },
        None => None,
    }
}

/// One step of a client's hole-punch attempt (see [`punch_step`]).
pub fn holepunch_client_step(s: PunchState, ev: PunchEvent) -> (r: (PunchState, PunchAction))
    ensures
        r == punch_step(s, ev),
{
    let none = PunchAction { update: None, send: None, punch: false, outcome: None };
    let failed = PunchState { stage: PunchStage::Failed, token: s.token };
    match (s.stage, ev) {
        (PunchStage::Start, PunchEvent::Begin { firewall }) => (
            PunchState { stage: PunchStage::Probing, token: s.token },
            PunchAction { update: None, send: Some(make_round_payload(firewall, 0, false, s.token)), punch: false, outcome: None },
        ),
        (PunchStage::Probing, PunchEvent::ProbeReply { error, remote, peer_host, firewall }) => if error != 0 {
            (failed, PunchAction { update: None, send: None, punch: false, outcome: Some(PunchOutcome::Failed { destroy: true }) })
        } else {
            (
                PunchState { stage: PunchStage::Punching, token: s.token },
                PunchAction {
                    update: make_remote_update(remote, peer_host),
                    send: Some(make_round_payload(firewall, 1, true, s.token)),
                    punch: false,
                    outcome: None,
                },
            )
        },
        (PunchStage::Punching, PunchEvent::PunchReply { remote, peer_host }) => (
            PunchState { stage: PunchStage::Punched, token: s.token },
            PunchAction { update: make_remote_update(remote, peer_host), send: None, punch: true, outcome: None },
        ),
        (PunchStage::Punched, PunchEvent::Punched(started)) => if started {
            (s, none)
        } else {
            (failed, PunchAction { update: None, send: None, punch: false, outcome: Some(PunchOutcome::Failed { destroy: true }) })
        },
        (PunchStage::Punched, PunchEvent::Connected(addr)) => (
            PunchState { stage: PunchStage::Done, token: s.token },
            PunchAction { update: None, send: None, punch: false, outcome: Some(PunchOutcome::Connected(addr)) },
        ),
        (PunchStage::Punched, PunchEvent::Aborted) => (
            PunchState { stage: PunchStage::Done, token: s.token },
            PunchAction { update: None, send: None, punch: false, outcome: Some(PunchOutcome::Aborted) },
        ),
        (PunchStage::Punched, PunchEvent::TimedOut) => (
            failed,
            PunchAction { update: None, send: None, punch: false, outcome: Some(PunchOutcome::Failed { destroy: true }) },
        ),
        (PunchStage::Probing, PunchEvent::RequestFailed) => (
            failed,
            PunchAction { update: None, send: None, punch: false, outcome: Some(PunchOutcome::Failed { destroy: false }) },
        ),
        (PunchStage::Punching, PunchEvent::RequestFailed) => (
            failed,
            PunchAction { update: None, send: None, punch: false, outcome: Some(PunchOutcome::Failed { destroy: false }) },
        ),
        _ => (s, none),
    }
}

/// A hole-punch attempt whose replies carry no error sends the probe (round
/// 0, not punching) and then the punch message (round 1, punching), each
/// with its firewall and the token, and then starts the punch.
pub proof fn lemma_punch_rounds(token: [u8; 32], fw0: u64, fw1: u64, remote0: Option<HolepunchPayload>, host0: String, remote1: Option<HolepunchPayload>, host1: String)
    ensures
        ({
            let s0 = PunchState { stage: PunchStage::Start, token };
            let (s1, a1) = punch_step(s0, PunchEvent::Begin { firewall: fw0 });
            let (s2, a2) = punch_step(s1, PunchEvent::ProbeReply { error: 0, remote: remote0, peer_host: host0, firewall: fw1 });
            let (s3, a3) = punch_step(s2, PunchEvent::PunchReply { remote: remote1, peer_host: host1 });
            &&& a1.send == Some(round_payload(fw0, 0, false, token))
            &&& a2.send == Some(round_payload(fw1, 1, true, token))
            &&& a3.punch
            &&& a1.outcome is None && a2.outcome is None && a3.outcome is None
            &&& s3.stage == PunchStage::Punched
        }),
{
}

// ── Checking what other nodes return ────────────────────────────────────────

/// The views of optional reply values.
pub open spec fn values_view(values: Seq<Option<Vec<u8>>>) -> Seq<Option<Seq<u8>>> {
    values.map_values(|v: Option<Vec<u8>>| crate::compact_encoding::opt_vec(v))
}

/// The record a mutable-get reply value gives for `public_key` at `seq`: the
/// value must read as a response with a sequence number of at least `seq`,
/// signed by `public_key` over the namespace of mutable puts and the digest
/// of its encoded sequence number and value.
pub open spec fn accepted_mutable(public_key: Seq<u8>, seq: u64, v: Option<Seq<u8>>) -> Option<MutableGetResponseView> {
    match v {
        Some(b) => match parse_mutable_get_response(b) {
            Ok((m, _k)) => if m.seq >= seq && ed25519_verify(
                m.signature,
                namespace_entry(dht_name_hash(), 6) + blake2b_256(enc_uint(m.seq) + enc_buffer(Some(m.value))),
                public_key,
            ) {
                Some(m)
            } else {
                None
            },
            Err(_) => None,
        },
        None => None,
    }
}

/// A response read from a buffer holds a value no longer than the buffer.
proof fn lemma_response_value_len(s: Seq<u8>)
    ensures
        parse_mutable_get_response(s) matches Ok((m, _k)) ==> m.value.len() <= s.len(),
{
}

/// The first reply value of a mutable get that is a signed record of
/// `public_key` at `seq` or later (see [`accepted_mutable`]), with its
/// position; none when no value is.
pub fn select_mutable(public_key: &[u8; 32], seq: u64, values: &[Option<Vec<u8>>]) -> (r: Option<(usize, MutableGetResponse)>)
    requires
        forall|j: int| 0 <= j < values@.len() ==> ((#[trigger] values@[j]) matches Some(v) ==> v@.len() <= usize::MAX / 2),
    ensures
        match r {
            Some((i, m)) => i < values@.len() && accepted_mutable(public_key@, seq, values_view(values@)[i as int]) == Some(m@)
                && forall|j: int| 0 <= j < i ==> accepted_mutable(public_key@, seq, #[trigger] values_view(values@)[j]) is None,
            None => forall|j: int|
                0 <= j < values@.len() ==> accepted_mutable(public_key@, seq, #[trigger] values_view(values@)[j]) is None,
        },
{
    let ns = ns_mutable_put();
    let mut i: usize = 0;
    while i < values.len()
        invariant
            i <= values@.len(),
            ns@ == namespace_entry(dht_name_hash(), 6),
            forall|j: int| 0 <= j < values@.len() ==> ((#[trigger] values@[j]) matches Some(v) ==> v@.len() <= usize::MAX / 2),
            forall|j: int| 0 <= j < i ==> accepted_mutable(public_key@, seq, #[trigger] values_view(values@)[j]) is None,
        decreases values@.len() - i,
    {
        proof {
            assert(values_view(values@)[i as int] == crate::compact_encoding::opt_vec(values@[i as int]));
        }
        match &values[i] {
            Some(b) => {
                match decode_mutable_get_response_from_bytes(b.as_slice()) {
                    Ok(resp) => {
                        proof {
                            lemma_response_value_len(b@);
                            crate::compact_encoding::lemma_uint_roundtrip(resp.seq, Seq::empty());
                            crate::compact_encoding::lemma_uint_roundtrip(resp.value@.len() as u64, Seq::empty());
                        }
                        if resp.seq >= seq {
                            let signable = mutable_signable(&ns, resp.seq, resp.value.as_slice());
                            if verify_detached(&resp.signature, &signable, public_key) {
                                return Some((i, resp));
                            }
                        }
                    },
                    Err(_) => {},
                }
            },
            None => {},
        }
        i = i + 1;
    }
    None
}

/// An immutable-get reply value is the target's value when it hashes to it.
pub open spec fn accepted_immutable(target: Seq<u8>, v: Option<Seq<u8>>) -> bool {
    v matches Some(b) && blake2b_256(b) == target
}

/// The position of the first reply value of an immutable get whose hash is
/// `target`; none when no value is.
pub fn select_immutable(target: &[u8; 32], values: &[Option<Vec<u8>>]) -> (r: Option<usize>)
    ensures
        match r {
            Some(i) => i < values@.len() && accepted_immutable(target@, values_view(values@)[i as int])
                && forall|j: int| 0 <= j < i ==> !accepted_immutable(target@, #[trigger] values_view(values@)[j]),
            None => forall|j: int| 0 <= j < values@.len() ==> !accepted_immutable(target@, #[trigger] values_view(values@)[j]),
        },
{
    let mut i: usize = 0;
    while i < values.len()
        invariant
            i <= values@.len(),
            forall|j: int| 0 <= j < i ==> !accepted_immutable(target@, #[trigger] values_view(values@)[j]),
        decreases values@.len() - i,
    {
        proof {
            assert(values_view(values@)[i as int] == crate::compact_encoding::opt_vec(values@[i as int]));
        }
        match &values[i] {
            Some(b) => {
                let h = hash(b.as_slice());
                if crate::blind_relay::same_token(&h, target) {
                    return Some(i);
                }
            },
            None => {},
        }
        i = i + 1;
    }
    None
}

/// The peers of the lookup replies that name some: for each reply value
/// that reads as a lookup reply with at least one peer, its position and
/// peers, in order.
pub open spec fn lookup_results(values: Seq<Option<Seq<u8>>>) -> Seq<(int, Seq<HyperPeerView>)>
    decreases values.len(),
{
    if values.len() == 0 {
        Seq::empty()
    } else {
        let rest = lookup_results(values.drop_last());
        let i = values.len() - 1;
        match values.last() {
            Some(b) => match parse_lookup_raw_reply(b) {
                Ok((m, _k)) => if m.peers.len() > 0 {
                    rest.push((i, m.peers))
                } else {
                    rest
                },
                Err(_) => rest,
            },
            None => rest,
        }
    }
}

/// The peers the lookup replies name (see [`lookup_results`]).
pub fn collect_lookup(values: &[Option<Vec<u8>>]) -> (r: Vec<(usize, Vec<PeerRecord>)>)
    ensures
        r@.map_values(|e: (usize, Vec<PeerRecord>)| (e.0 as int, e.1@.map_values(|p: PeerRecord| p@)))
            == lookup_results(values_view(values@)),
{
    let ghost vv = values_view(values@);
    let mut out: Vec<(usize, Vec<PeerRecord>)> = Vec::new();
    let mut i: usize = 0;
    while i < values.len()
        invariant
            i <= values@.len(),
            vv == values_view(values@),
            out@.map_values(|e: (usize, Vec<PeerRecord>)| (e.0 as int, e.1@.map_values(|p: PeerRecord| p@)))
                == lookup_results(vv.take(i as int)),
        decreases values@.len() - i,
    {
        let ghost before = out@;
        proof {
            assert(vv.take(i + 1).drop_last() =~= vv.take(i as int));
            assert(vv.take(i + 1).last() == vv[i as int]);
            assert(vv[i as int] == crate::compact_encoding::opt_vec(values@[i as int]));
        }
        match &values[i] {
            Some(b) => {
                match decode_lookup_raw_reply_from_bytes(b.as_slice()) {
                    Ok(raw) => {
                        if raw.peers.len() > 0 {
                            let ghost pv = raw.peers@.map_values(|p: PeerRecord| p@);
                            out.push((i, raw.peers));
                            proof {
                                assert(out@.map_values(|e: (usize, Vec<PeerRecord>)| (e.0 as int, e.1@.map_values(|p: PeerRecord| p@)))
                                    =~= before.map_values(|e: (usize, Vec<PeerRecord>)| (e.0 as int, e.1@.map_values(|p: PeerRecord| p@))).push((i as int, pv)));
                            }
                        }
                    },
                    Err(_) => {},
                }
            },
            None => {},
        }
        i = i + 1;
    }
    proof {
        assert(vv.take(i as int) =~= vv);
    }
    out
}

/// The relay addresses of the peer records among FIND_PEER reply values, in
/// order: for each value that reads as a peer record, its relays.
pub open spec fn record_relays(values: Seq<Option<Seq<u8>>>) -> Seq<PeerView>
    decreases values.len(),
{
    if values.len() == 0 {
        Seq::empty()
    } else {
        let rest = record_relays(values.drop_last());
        match values.last() {
            Some(b) => match parse_hyper_peer(b) {
                Ok((p, _k)) => rest + p.relay_addresses,
                Err(_) => rest,
            },
            None => rest,
        }
    }
}

/// The relay addresses named by the peer records among FIND_PEER reply
/// values (see [`record_relays`]); the nodes still worth trying after those
/// are [`extend_untried`] of what was tried with these.
pub fn peer_record_relays(values: &[Option<Vec<u8>>]) -> (r: Vec<Ipv4Peer>)
    ensures
        peers_view(r@) == record_relays(values_view(values@)),
{
    let ghost vv = values_view(values@);
    let mut out: Vec<Ipv4Peer> = Vec::new();
    let mut i: usize = 0;
    while i < values.len()
        invariant
            i <= values@.len(),
            vv == values_view(values@),
            peers_view(out@) == record_relays(vv.take(i as int)),
        decreases values@.len() - i,
    {
        let ghost before = out@;
        proof {
            assert(vv.take(i + 1).drop_last() =~= vv.take(i as int));
            assert(vv.take(i + 1).last() == vv[i as int]);
            assert(vv[i as int] == crate::compact_encoding::opt_vec(values@[i as int]));
        }
        match &values[i] {
            Some(b) => match decode_hyper_peer_from_bytes(b.as_slice()) {
                Ok(p) => {
                    let mut ra = p.relay_addresses;
                    let ghost rv = ra@;
                    out.append(&mut ra);
                    proof {
                        assert(peers_view(out@) =~= peers_view(before) + peers_view(rv));
                    }
                },
                Err(_) => {},
            },
            None => {},
        }
        i = i + 1;
    }
    proof {
        assert(vv.take(i as int) =~= vv);
    }
    out
}

/// The remote offers hole-punch relays.
pub open spec fn offers_punch_relays(remote: NoisePayloadView) -> bool {
    remote.holepunch matches Some(h) && h.1.len() > 0
}

/// The address `first_public` picks is the earliest public one: it is in
/// the list, its host is public, and every address before it is private;
/// with no public address it picks none.
proof fn lemma_first_public(s: Seq<PeerView>)
    ensures
        first_public(s) matches Some(a) ==> exists|i: int|
            0 <= i < s.len() && #[trigger] s[i] == a && !private_host(a.0) && forall|j: int| 0 <= j < i ==> private_host(#[trigger] s[j].0),
        first_public(s) is None ==> forall|j: int| 0 <= j < s.len() ==> private_host(#[trigger] s[j].0),
    decreases s.len(),
{
    if s.len() > 0 {
        lemma_first_public(s.drop_first());
        if private_host(s[0].0) {
            let t = s.drop_first();
            if first_public(s) is Some {
                let a = first_public(s)->0;
                let i = choose|i: int|
                    0 <= i < t.len() && #[trigger] t[i] == a && !private_host(a.0) && forall|j: int| 0 <= j < i ==> private_host(#[trigger] t[j].0);
                assert(s[i + 1] == a);
                assert forall|j: int| 0 <= j < i + 1 implies private_host(#[trigger] s[j].0) by {
                    if j > 0 {
                        assert(s[j] == t[j - 1]);
                    }
                }
            } else {
                assert forall|j: int| 0 <= j < s.len() implies private_host(#[trigger] s[j].0) by {
                    if j > 0 {
                        assert(s[j] == t[j - 1]);
                    }
                }
            }
        } else {
            assert(s[0] == first_public(s)->0);
        }
    }
}

/// What the path after a handshake is, case by case:
/// - a remote error rejects the connection, whatever else it says;
/// - otherwise a remote that names a node to go through is reached through it;
/// - otherwise hole-punching happens exactly when the handshake was relayed,
///   the remote's firewall is not open, it offers hole-punch relays, and the
///   two sides are on different hosts;
/// - every other case connects directly, to the remote's earliest public
///   address, or to the server's address when it has none.
pub proof fn lemma_connection_path(relayed: bool, remote: NoisePayloadView, server: PeerView, client: PeerView)
    ensures
        remote.error != 0 ==> path_spec(relayed, remote, server, client) is Rejected,
        remote.error == 0 && remote.relay_through is Some ==> path_spec(relayed, remote, server, client) is RelayThrough,
        path_spec(relayed, remote, server, client) is Holepunch <==> (remote.error == 0 && remote.relay_through is None
            && relayed && remote.firewall != FIREWALL_OPEN && offers_punch_relays(remote) && server.0 != client.0),
        remote.error == 0 && remote.relay_through is None && !offers_punch_relays(remote) ==> path_spec(
            relayed,
            remote,
            server,
            client,
        ) is Direct,
        path_spec(relayed, remote, server, client) matches PathView::Direct(a) ==> (a == server && forall|j: int|
            0 <= j < remote.addresses4.len() ==> private_host(#[trigger] remote.addresses4[j].0)) || exists|i: int|
            0 <= i < remote.addresses4.len() && #[trigger] remote.addresses4[i] == a && !private_host(a.0) && forall|j: int|
                0 <= j < i ==> private_host(#[trigger] remote.addresses4[j].0),
{
    lemma_first_public(remote.addresses4);
}

} // verus!
