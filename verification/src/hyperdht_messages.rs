//! HyperDHT message payloads carried inside DHT RPC values: peer records,
//! announcements, lookups, mutable records, handshake and hole-punch messages
//! and the payload exchanged inside the Noise handshake.
use vstd::prelude::*;
use crate::compact_encoding::{
    buffer_size, decode_buffer, decode_fixed32, decode_fixed64, decode_uint, enc_array, enc_buffer, enc_many,
    enc_peer, enc_uint, encode_buffer, encode_fixed32, encode_fixed64, encode_uint, first_bad_host, fixed32_parser,
    fixed64_parser, lemma_buffer_roundtrip, lemma_first_bad_host_invalid, lemma_first_bad_host_left,
    lemma_first_bad_host_right, lemma_fixed_roundtrip, lemma_peers_len, lemma_peers_roundtrip, lemma_rest_skip, lemma_skip_append, lemma_skip_skip, lemma_assoc3, lemma_assoc4, lemma_assoc5,
    lemma_uint_roundtrip, lemma_valid_peers_concat, lemma_wrote_nothing, lemma_wrote_trans, opt_field, parse_array,
    parse_buffer, parse_fixed, parse_opt, parse_uint, peer_item, peer_parser, planned, preencode_buffer,
    preencode_uint, read_as, uint_parser, uint_size, valid_peers, wrote, canon_peer_fn, EncodingError, PResult,
    State,
};
use crate::messages::{
    decode_ipv4_array, encode_ipv4_array, peers_size, peers_view, preencode_ipv4_array, Ipv4Peer,
};

verus! {

/// Result type used by HyperDHT message codecs.
pub type Result<T> = core::result::Result<T, EncodingError>;

// ── HyperDHT command IDs ────────────────────────────────────────────────────

pub const PEER_HANDSHAKE: u64 = 0;
pub const PEER_HOLEPUNCH: u64 = 1;
pub const FIND_PEER: u64 = 2;
pub const LOOKUP: u64 = 3;
pub const ANNOUNCE: u64 = 4;
pub const UNANNOUNCE: u64 = 5;
pub const MUTABLE_PUT: u64 = 6;
pub const MUTABLE_GET: u64 = 7;
pub const IMMUTABLE_PUT: u64 = 8;
pub const IMMUTABLE_GET: u64 = 9;

// ── Handshake routing modes ─────────────────────────────────────────────────

pub const MODE_FROM_CLIENT: u64 = 0;
pub const MODE_FROM_SERVER: u64 = 1;
pub const MODE_FROM_RELAY: u64 = 2;
pub const MODE_FROM_SECOND_RELAY: u64 = 3;
pub const MODE_REPLY: u64 = 4;

// ── Firewall constants ──────────────────────────────────────────────────────

pub const FIREWALL_UNKNOWN: u64 = 0;
pub const FIREWALL_OPEN: u64 = 1;
pub const FIREWALL_CONSISTENT: u64 = 2;
pub const FIREWALL_RANDOM: u64 = 3;

// ── Error constants ─────────────────────────────────────────────────────────

pub const ERROR_NONE: u64 = 0;
pub const ERROR_ABORTED: u64 = 1;
pub const ERROR_VERSION_MISMATCH: u64 = 2;
pub const ERROR_TRY_LATER: u64 = 3;
pub const ERROR_SEQ_REUSED: u64 = 16;
pub const ERROR_SEQ_TOO_LOW: u64 = 17;

// ── Shared pieces ───────────────────────────────────────────────────────────

/// A decoder's result is what the parser gives for the whole input.
pub open spec fn decoded_as<T, V>(r: Result<T>, p: PResult<V>, view: spec_fn(T) -> V) -> bool {
    match r {
        Ok(v) => p matches Ok((w, _)) && w == view(v),
        Err(e) => p == Err::<(V, nat), EncodingError>(e),
    }
}

/// A decoder that succeeded read no further than the end.
pub open spec fn read_within<T>(old: State, new: State, r: Result<T>) -> bool {
    r is Ok ==> new.start - old.start <= old.rest().len()
}

/// `m` when `b` holds, else no bit.
pub open spec fn bit64(b: bool, m: u64) -> u64 {
    if b {
        m
    } else {
        0
    }
}

pub(crate) fn flag64(b: bool, m: u64) -> (r: u64)
    ensures
        r == bit64(b, m),
{
    if b {
        m
    } else {
        0
    }
}

/// A number when it is not zero, else nothing.
pub open spec fn enc_nonzero(n: u64) -> Seq<u8> {
    if n != 0 {
        enc_uint(n)
    } else {
        Seq::empty()
    }
}

/// The length of [`enc_nonzero`].
pub open spec fn nonzero_size(n: u64) -> nat {
    if n != 0 {
        uint_size(n)
    } else {
        0
    }
}

/// A number read behind its flag, zero when the flag was clear.
pub open spec fn or_zero(v: Option<u64>) -> u64 {
    match v {
        Some(x) => x,
        None => 0,
    }
}

/// An optional peer as a list of zero or one peers.
pub open spec fn opt_peers(p: Option<(Seq<char>, u16)>) -> Seq<(Seq<char>, u16)> {
    match p {
        Some(p) => seq![p],
        None => Seq::empty(),
    }
}

/// The plain values of an optional peer.
pub open spec fn opt_peer_view(p: Option<Ipv4Peer>) -> Option<(Seq<char>, u16)> {
    match p {
        Some(p) => Some(p@),
        None => None,
    }
}

/// A buffer read back where absent means empty.
pub open spec fn or_empty(v: Option<Seq<u8>>) -> Seq<u8> {
    match v {
        Some(x) => x,
        None => Seq::empty(),
    }
}

pub(crate) fn encode_nonzero(state: &mut State, n: u64)
    requires
        old(state).start + nonzero_size(n) <= old(state).buffer@.len(),
    ensures
        wrote(*old(state), *final(state), enc_nonzero(n)),
        enc_nonzero(n).len() == nonzero_size(n),
{
    proof {
        lemma_uint_roundtrip(n, Seq::empty());
    }
    if n != 0 {
        encode_uint(state, n);
    } else {
        proof {
            lemma_wrote_nothing(*state);
        }
    }
}

pub(crate) fn decode_buffer_or_empty(state: &mut State) -> (r: Result<Vec<u8>>)
    requires
        old(state).readable(),
    ensures
        read_as(
            *old(state),
            *final(state),
            r,
            match parse_buffer(old(state).rest()) {
                Ok((v, k)) => Ok((or_empty(v), k)),
                Err(e) => Err(e),
            },
            |v: Vec<u8>| v@,
        ),
{
    match decode_buffer(state)? {
        Some(v) => Ok(v),
        None => Ok(Vec::new()),
    }
}

// ── HyperPeer ───────────────────────────────────────────────────────────────

/// A peer record: its public key and the relays it can be reached through.
#[derive(Debug, Clone)]
pub struct HyperPeer {
    pub public_key: [u8; 32],
    pub relay_addresses: Vec<Ipv4Peer>,
}

/// A peer record as plain values.
pub struct HyperPeerView {
    pub public_key: Seq<u8>,
    pub relay_addresses: Seq<(Seq<char>, u16)>,
}

impl View for HyperPeer {
    type V = HyperPeerView;

    open spec fn view(&self) -> HyperPeerView {
        HyperPeerView { public_key: self.public_key@, relay_addresses: peers_view(self.relay_addresses@) }
    }
}

/// The wire bytes of a peer record with valid relay hosts.
pub open spec fn enc_hyper_peer(p: HyperPeerView) -> Seq<u8> {
    p.public_key + enc_array(peer_item(), p.relay_addresses)
}

/// The size of a peer record.
pub open spec fn hyper_peer_size(p: HyperPeerView) -> nat {
    32 + peers_size(p.relay_addresses.len())
}

/// Reads a peer record.
pub open spec fn parse_hyper_peer(s: Seq<u8>) -> PResult<HyperPeerView> {
    match parse_fixed(s, 32) {
        Err(e) => Err(e),
        Ok((pk, k1)) => match parse_array(peer_parser(), s.skip(k1 as int)) {
            Err(e) => Err(e),
            Ok((ra, k2)) => Ok((HyperPeerView { public_key: pk, relay_addresses: ra }, k1 + k2)),
        },
    }
}

/// A peer record as it reads back: canonical relay host texts.
pub open spec fn canon_hyper_peer(p: HyperPeerView) -> HyperPeerView {
    HyperPeerView { public_key: p.public_key, relay_addresses: p.relay_addresses.map_values(canon_peer_fn()) }
}

/// Pre-encodes a [`HyperPeer`].
pub fn preencode_hyper_peer(state: &mut State, peer: &HyperPeer)
    requires
        old(state).end + hyper_peer_size(peer@) <= usize::MAX,
    ensures
        planned(*old(state), *final(state), hyper_peer_size(peer@)),
{
    state.end = state.end + 32;
    preencode_ipv4_array(state, peer.relay_addresses.as_slice());
}

/// Encodes a [`HyperPeer`]; the first bad relay host is refused with its text.
pub fn encode_hyper_peer(state: &mut State, peer: &HyperPeer) -> (r: Result<()>)
    requires
        old(state).start + hyper_peer_size(peer@) <= old(state).buffer@.len(),
    ensures
        r is Ok <==> valid_peers(peer@.relay_addresses),
        r is Ok ==> wrote(*old(state), *final(state), enc_hyper_peer(peer@)),
        r is Ok ==> enc_hyper_peer(peer@).len() == hyper_peer_size(peer@),
        r matches Err(e) ==> first_bad_host(peer@.relay_addresses, e),
{
    let ghost s0 = *state;
    encode_fixed32(state, &peer.public_key);
    let ghost s1 = *state;
    encode_ipv4_array(state, peer.relay_addresses.as_slice())?;
    proof {
        let ra = peer@.relay_addresses;
        lemma_peers_len(ra);
        lemma_uint_roundtrip(ra.len() as u64, Seq::empty());
        lemma_wrote_trans(s0, s1, *state, peer.public_key@, enc_array(peer_item(), ra));
    }
    Ok(())
}

/// Decodes a [`HyperPeer`].
pub fn decode_hyper_peer(state: &mut State) -> (r: Result<HyperPeer>)
    requires
        old(state).readable(),
    ensures
        read_as(*old(state), *final(state), r, parse_hyper_peer(old(state).rest()), |v: HyperPeer| v@),
        read_within(*old(state), *final(state), r),
{
    let ghost s0 = *state;
    let public_key = decode_fixed32(state)?;
    proof {
        lemma_rest_skip(s0, *state, 32);
    }
    let relay_addresses = decode_ipv4_array(state)?;
    Ok(HyperPeer { public_key, relay_addresses })
}

/// Serializes a [`HyperPeer`] to a byte vector.
pub fn encode_hyper_peer_to_bytes(peer: &HyperPeer) -> (r: Result<Vec<u8>>)
    requires
        hyper_peer_size(peer@) <= usize::MAX,
    ensures
        r is Ok <==> valid_peers(peer@.relay_addresses),
        r matches Ok(b) ==> b@ == enc_hyper_peer(peer@),
        r matches Err(e) ==> first_bad_host(peer@.relay_addresses, e),
{
    let mut state = State::new();
    preencode_hyper_peer(&mut state, peer);
    state.allocate();
    encode_hyper_peer(&mut state, peer)?;
    proof {
        assert(state.buffer@ =~= enc_hyper_peer(peer@));
    }
    Ok(state.buffer)
}

/// Deserializes a [`HyperPeer`] from the start of a byte slice.
pub fn decode_hyper_peer_from_bytes(buf: &[u8]) -> (r: Result<HyperPeer>)
    ensures
        decoded_as(r, parse_hyper_peer(buf@), |v: HyperPeer| v@),
{
    let mut state = State::from_buffer(buf);
    proof {
        assert(state.rest() =~= buf@);
    }
    decode_hyper_peer(&mut state)
}

/// The peer parser, as a function.
pub open spec fn hyper_peer_parser() -> spec_fn(Seq<u8>) -> PResult<HyperPeerView> {
    |s: Seq<u8>| parse_hyper_peer(s)
}

/// A peer record with valid relay hosts, at most [`MAX_ARRAY_LENGTH`](crate::compact_encoding::MAX_ARRAY_LENGTH)
/// of them, reads back with canonical host texts.
pub proof fn lemma_hyper_peer_roundtrip(p: HyperPeerView, rest: Seq<u8>)
    requires
        p.public_key.len() == 32,
        valid_peers(p.relay_addresses),
        p.relay_addresses.len() <= 0x100000,
    ensures
        enc_hyper_peer(p).len() == hyper_peer_size(p),
        parse_hyper_peer(enc_hyper_peer(p) + rest) == Ok::<(HyperPeerView, nat), EncodingError>((
            canon_hyper_peer(p),
            hyper_peer_size(p),
        )),
{
    let a = enc_array(peer_item(), p.relay_addresses);
    lemma_peers_roundtrip(p.relay_addresses, rest);
    lemma_uint_roundtrip(p.relay_addresses.len() as u64, Seq::empty());
    let s = enc_hyper_peer(p) + rest;
    assert(s =~= p.public_key + (a + rest));
    lemma_fixed_roundtrip(p.public_key, a + rest);
    assert(s.skip(32) =~= a + rest);
}

// ── AnnounceMessage ─────────────────────────────────────────────────────────

const FLAG_PEER: u64 = 0x1;
const FLAG_REFRESH: u64 = 0x2;
const FLAG_SIGNATURE: u64 = 0x4;
const FLAG_BUMP: u64 = 0x8;

/// An announcement (or its withdrawal) of a peer record under a target.
#[derive(Debug, Clone)]
pub struct AnnounceMessage {
    pub peer: Option<HyperPeer>,
    pub refresh: Option<[u8; 32]>,
    pub signature: Option<[u8; 64]>,
    pub bump: u64,
}

/// An announcement as plain values.
pub struct AnnounceView {
    pub peer: Option<HyperPeerView>,
    pub refresh: Option<Seq<u8>>,
    pub signature: Option<Seq<u8>>,
    pub bump: u64,
}

/// The plain values of an optional peer record.
pub open spec fn opt_hyper_peer_view(p: Option<HyperPeer>) -> Option<HyperPeerView> {
    match p {
        Some(p) => Some(p@),
        None => None,
    }
}

impl View for AnnounceMessage {
    type V = AnnounceView;

    open spec fn view(&self) -> AnnounceView {
        AnnounceView {
            peer: opt_hyper_peer_view(self.peer),
            refresh: crate::compact_encoding::opt_arr32(self.refresh),
            signature: crate::compact_encoding::opt_arr64(self.signature),
            bump: self.bump,
        }
    }
}

/// The flags of an announcement: which of peer, refresh, signature and bump it carries.
pub open spec fn announce_flags(m: AnnounceView) -> u64 {
    bit64(m.peer is Some, 1) | bit64(m.refresh is Some, 2) | bit64(m.signature is Some, 4) | bit64(m.bump != 0, 8)
}

/// The flags byte tells each of its four fields apart, and fits one byte.
pub proof fn lemma_flag_bits4(a: bool, b: bool, c: bool, d: bool)
    ensures
        ({
            let f = bit64(a, 1) | bit64(b, 2) | bit64(c, 4) | bit64(d, 8);
            &&& (f & 1 != 0) == a
            &&& (f & 2 != 0) == b
            &&& (f & 4 != 0) == c
            &&& (f & 8 != 0) == d
            &&& f <= 15
        }),
{
    assert({
        let f = (if a { 1u64 } else { 0u64 }) | (if b { 2u64 } else { 0u64 }) | (if c { 4u64 } else { 0u64 }) | (if d {
            8u64
        } else {
            0u64
        });
        &&& (f & 1 != 0) == a
        &&& (f & 2 != 0) == b
        &&& (f & 4 != 0) == c
        &&& (f & 8 != 0) == d
        &&& f <= 15
    }) by (bit_vector);
}

/// A present peer record, else nothing.
pub open spec fn enc_opt_hyper_peer(p: Option<HyperPeerView>) -> Seq<u8> {
    match p {
        Some(p) => enc_hyper_peer(p),
        None => Seq::empty(),
    }
}

/// The size of [`enc_opt_hyper_peer`].
pub open spec fn opt_hyper_peer_size(p: Option<HyperPeerView>) -> nat {
    match p {
        Some(p) => hyper_peer_size(p),
        None => 0,
    }
}

/// The relay hosts of an optional peer record.
pub open spec fn opt_relays(p: Option<HyperPeerView>) -> Seq<(Seq<char>, u16)> {
    match p {
        Some(p) => p.relay_addresses,
        None => Seq::empty(),
    }
}

/// The wire bytes of an announcement whose relay hosts are valid.
pub open spec fn enc_announce(m: AnnounceView) -> Seq<u8> {
    enc_uint(announce_flags(m)) + enc_opt_hyper_peer(m.peer) + opt_field(m.refresh) + opt_field(m.signature)
        + enc_nonzero(m.bump)
}

/// The size of an announcement.
pub open spec fn announce_size(m: AnnounceView) -> nat {
    1 + opt_hyper_peer_size(m.peer) + opt_field(m.refresh).len() + opt_field(m.signature).len() + nonzero_size(m.bump)
}

/// Reads an announcement.
pub open spec fn parse_announce(s: Seq<u8>) -> PResult<AnnounceView> {
    match parse_uint(s) {
        Err(e) => Err(e),
        Ok((f, k1)) => match parse_opt(hyper_peer_parser(), s.skip(k1 as int), f & 1 != 0) {
            Err(e) => Err(e),
            Ok((peer, k2)) => match parse_opt(fixed32_parser(), s.skip((k1 + k2) as int), f & 2 != 0) {
                Err(e) => Err(e),
                Ok((refresh, k3)) => match parse_opt(fixed64_parser(), s.skip((k1 + k2 + k3) as int), f & 4 != 0) {
                    Err(e) => Err(e),
                    Ok((sig, k4)) => match parse_opt(uint_parser(), s.skip((k1 + k2 + k3 + k4) as int), f & 8 != 0) {
                        Err(e) => Err(e),
                        Ok((bump, k5)) => Ok((
                            AnnounceView { peer, refresh, signature: sig, bump: or_zero(bump) },
                            k1 + k2 + k3 + k4 + k5,
                        )),
                    },
                },
            },
        },
    }
}

/// Pre-encodes an [`AnnounceMessage`].
pub fn preencode_announce(state: &mut State, m: &AnnounceMessage)
    requires
        old(state).end + announce_size(m@) <= usize::MAX,
    ensures
        planned(*old(state), *final(state), announce_size(m@)),
{
    state.end = state.end + 1;
    match &m.peer {
        Some(peer) => preencode_hyper_peer(state, peer),
        None => {},
    }
    if m.refresh.is_some() {
        state.end = state.end + 32;
    }
    if m.signature.is_some() {
        state.end = state.end + 64;
    }
    if m.bump != 0 {
        preencode_uint(state, m.bump);
    }
}

/// Encodes an [`AnnounceMessage`]; the first bad relay host is refused with its text.
pub fn encode_announce(state: &mut State, m: &AnnounceMessage) -> (r: Result<()>)
    requires
        old(state).start + announce_size(m@) <= old(state).buffer@.len(),
    ensures
        r is Ok <==> valid_peers(opt_relays(m@.peer)),
        r is Ok ==> wrote(*old(state), *final(state), enc_announce(m@)),
        r is Ok ==> enc_announce(m@).len() == announce_size(m@),
        r matches Err(e) ==> first_bad_host(opt_relays(m@.peer), e),
{
    let ghost s0 = *state;
    let ghost mv = m@;
    let flags = flag64(m.peer.is_some(), FLAG_PEER) | flag64(m.refresh.is_some(), FLAG_REFRESH) | flag64(
        m.signature.is_some(),
        FLAG_SIGNATURE,
    ) | flag64(m.bump != 0, FLAG_BUMP);
    proof {
        lemma_flag_bits4(mv.peer is Some, mv.refresh is Some, mv.signature is Some, mv.bump != 0);
        lemma_uint_roundtrip(flags, Seq::empty());
    }
    encode_uint(state, flags);
    let ghost s1 = *state;
    match &m.peer {
        Some(peer) => {
            encode_hyper_peer(state, peer)?;
        },
        None => {
            proof {
                lemma_wrote_nothing(*state);
            }
        },
    }
    let ghost s2 = *state;
    crate::compact_encoding::encode_opt_fixed32(state, &m.refresh);
    let ghost s3 = *state;
    crate::compact_encoding::encode_opt_fixed64(state, &m.signature);
    let ghost s4 = *state;
    encode_nonzero(state, m.bump);
    proof {
        lemma_wrote_trans(s0, s1, s2, enc_uint(flags), enc_opt_hyper_peer(mv.peer));
        lemma_wrote_trans(s0, s2, s3, enc_uint(flags) + enc_opt_hyper_peer(mv.peer), opt_field(mv.refresh));
        lemma_wrote_trans(
            s0,
            s3,
            s4,
            enc_uint(flags) + enc_opt_hyper_peer(mv.peer) + opt_field(mv.refresh),
            opt_field(mv.signature),
        );
        lemma_wrote_trans(
            s0,
            s4,
            *state,
            enc_uint(flags) + enc_opt_hyper_peer(mv.peer) + opt_field(mv.refresh) + opt_field(mv.signature),
            enc_nonzero(mv.bump),
        );
    }
    Ok(())
}

/// Decodes an [`AnnounceMessage`].
#[verifier::rlimit(60)]
pub fn decode_announce(state: &mut State) -> (r: Result<AnnounceMessage>)
    requires
        old(state).readable(),
    ensures
        read_as(*old(state), *final(state), r, parse_announce(old(state).rest()), |v: AnnounceMessage| v@),
{
    let ghost s0 = *state;
    let flags = decode_uint(state)?;
    let ghost s1 = *state;
    let ghost k1 = (s1.start - s0.start) as nat;
    proof {
        lemma_rest_skip(s0, s1, k1);
    }
    let peer = if flags & FLAG_PEER != 0 {
        Some(decode_hyper_peer(state)?)
    } else {
        None
    };
    let ghost s2 = *state;
    let ghost k2 = (s2.start - s1.start) as nat;
    proof {
        lemma_rest_skip(s0, s2, k1 + k2);
        assert(s1.rest().skip(k2 as int) =~= s0.rest().skip((k1 + k2) as int));
    }
    let refresh = crate::compact_encoding::decode_opt_fixed32(state, flags & FLAG_REFRESH != 0)?;
    let ghost s3 = *state;
    let ghost k3 = (s3.start - s2.start) as nat;
    proof {
        lemma_rest_skip(s0, s3, k1 + k2 + k3);
        assert(s2.rest().skip(k3 as int) =~= s0.rest().skip((k1 + k2 + k3) as int));
    }
    let signature = crate::compact_encoding::decode_opt_fixed64(state, flags & FLAG_SIGNATURE != 0)?;
    let ghost s4 = *state;
    let ghost k4 = (s4.start - s3.start) as nat;
    proof {
        lemma_rest_skip(s0, s4, k1 + k2 + k3 + k4);
        assert(s3.rest().skip(k4 as int) =~= s0.rest().skip((k1 + k2 + k3 + k4) as int));
    }
    let bump = crate::compact_encoding::decode_uint_or_zero(state, flags & FLAG_BUMP != 0)?;
    Ok(AnnounceMessage { peer, refresh, signature, bump })
}

/// Serializes an [`AnnounceMessage`] to a byte vector.
pub fn encode_announce_to_bytes(m: &AnnounceMessage) -> (r: Result<Vec<u8>>)
    requires
        announce_size(m@) <= usize::MAX,
    ensures
        r is Ok <==> valid_peers(opt_relays(m@.peer)),
        r matches Ok(b) ==> b@ == enc_announce(m@),
        r matches Err(e) ==> first_bad_host(opt_relays(m@.peer), e),
{
    let mut state = State::new();
    preencode_announce(&mut state, m);
    state.allocate();
    encode_announce(&mut state, m)?;
    proof {
        assert(state.buffer@ =~= enc_announce(m@));
    }
    Ok(state.buffer)
}

/// Deserializes an [`AnnounceMessage`] from the start of a byte slice.
pub fn decode_announce_from_bytes(buf: &[u8]) -> (r: Result<AnnounceMessage>)
    ensures
        decoded_as(r, parse_announce(buf@), |v: AnnounceMessage| v@),
{
    let mut state = State::from_buffer(buf);
    proof {
        assert(state.rest() =~= buf@);
    }
    decode_announce(&mut state)
}

/// Whether the fixed fields of an announcement have their lengths and its
/// relay list fits a decoder.
pub open spec fn announce_wf(m: AnnounceView) -> bool {
    &&& m.peer matches Some(p) ==> p.public_key.len() == 32 && p.relay_addresses.len() <= 0x100000
    &&& m.refresh matches Some(x) ==> x.len() == 32
    &&& m.signature matches Some(x) ==> x.len() == 64
}

/// An announcement as it reads back: canonical relay host texts.
pub open spec fn canon_announce(m: AnnounceView) -> AnnounceView {
    AnnounceView {
        peer: match m.peer {
            Some(p) => Some(canon_hyper_peer(p)),
            None => None,
        },
        ..m
    }
}

pub(crate) proof fn lemma_opt_fixed_roundtrip(b: Option<Seq<u8>>, n: nat, rest: Seq<u8>)
    requires
        b matches Some(x) ==> x.len() == n,
        n == 32 || n == 64,
    ensures
        parse_opt(if n == 32 { fixed32_parser() } else { fixed64_parser() }, opt_field(b) + rest, b is Some)
            == Ok::<(Option<Seq<u8>>, nat), EncodingError>((b, opt_field(b).len())),
{
    if let Some(x) = b {
        lemma_fixed_roundtrip(x, rest);
    }
}

/// An announcement with valid relay hosts reads back with canonical host texts.
#[verifier::spinoff_prover]
#[verifier::rlimit(50)]
pub proof fn lemma_announce_roundtrip(m: AnnounceView, rest: Seq<u8>)
    requires
        announce_wf(m),
        valid_peers(opt_relays(m.peer)),
    ensures
        parse_announce(enc_announce(m) + rest) == Ok::<(AnnounceView, nat), EncodingError>((
            canon_announce(m),
            enc_announce(m).len(),
        )),
{
    let f = announce_flags(m);
    lemma_flag_bits4(m.peer is Some, m.refresh is Some, m.signature is Some, m.bump != 0);
    let a = enc_uint(f);
    let b = enc_opt_hyper_peer(m.peer);
    let c = opt_field(m.refresh);
    let d = opt_field(m.signature);
    let e = enc_nonzero(m.bump);
    let t4 = e + rest;
    let t3 = d + t4;
    let t2 = c + t3;
    let t1 = b + t2;
    let t0 = a + t1;
    lemma_assoc5(a, b, c, d, e, rest);
    assert(enc_announce(m) + rest == t0);
    lemma_uint_roundtrip(f, t1);
    lemma_skip_append(a, t1);
    lemma_skip_append(b, t2);
    lemma_skip_append(c, t3);
    lemma_skip_append(d, t4);
    lemma_skip_skip(t0, a.len(), b.len());
    lemma_skip_skip(t0, a.len() + b.len(), c.len());
    lemma_skip_skip(t0, a.len() + b.len() + c.len(), d.len());
    if let Some(p) = m.peer {
        lemma_hyper_peer_roundtrip(p, t2);
    }
    lemma_opt_fixed_roundtrip(m.refresh, 32, t3);
    lemma_opt_fixed_roundtrip(m.signature, 64, t4);
    lemma_uint_roundtrip(m.bump, rest);
    let cp = canon_announce(m).peer;
    assert(parse_uint(t0) == Ok::<(u64, nat), EncodingError>((f, a.len())));
    assert(t0.skip(a.len() as int) == t1);
    assert(parse_opt(hyper_peer_parser(), t1, f & 1 != 0) == Ok::<(Option<HyperPeerView>, nat), EncodingError>((cp, b.len())));
    assert(t0.skip((a.len() + b.len()) as int) == t2);
    assert(parse_opt(fixed32_parser(), t2, f & 2 != 0) == Ok::<(Option<Seq<u8>>, nat), EncodingError>((m.refresh, c.len())));
    assert(parse_opt(fixed64_parser(), t3, f & 4 != 0) == Ok::<(Option<Seq<u8>>, nat), EncodingError>((m.signature, d.len())));
    assert(parse_opt(uint_parser(), t4, f & 8 != 0) matches Ok((v, k)) && or_zero(v) == m.bump && k == e.len());
}

// ── LookupRawReply ──────────────────────────────────────────────────────────

/// The peer records found under a target, and the bump counter.
#[derive(Debug, Clone)]
pub struct LookupRawReply {
    pub peers: Vec<HyperPeer>,
    pub bump: u64,
}

/// A lookup reply as plain values.
pub struct LookupRawReplyView {
    pub peers: Seq<HyperPeerView>,
    pub bump: u64,
}

/// The plain values of a list of peer records.
pub open spec fn hyper_peers_view(ps: Seq<HyperPeer>) -> Seq<HyperPeerView> {
    ps.map_values(|p: HyperPeer| p@)
}

impl View for LookupRawReply {
    type V = LookupRawReplyView;

    open spec fn view(&self) -> LookupRawReplyView {
        LookupRawReplyView { peers: hyper_peers_view(self.peers@), bump: self.bump }
    }
}

/// The peer record encoding, as a function.
pub open spec fn hyper_peer_item() -> spec_fn(HyperPeerView) -> Seq<u8> {
    |p: HyperPeerView| enc_hyper_peer(p)
}

/// The total size of a list of peer records.
pub open spec fn hyper_peers_size(ps: Seq<HyperPeerView>) -> nat
    decreases ps.len(),
{
    if ps.len() == 0 {
        0
    } else {
        hyper_peers_size(ps.drop_last()) + hyper_peer_size(ps.last())
    }
}

/// All relay hosts of a list of peer records, in order.
pub open spec fn all_relays(ps: Seq<HyperPeerView>) -> Seq<(Seq<char>, u16)>
    decreases ps.len(),
{
    if ps.len() == 0 {
        Seq::empty()
    } else {
        all_relays(ps.drop_last()) + ps.last().relay_addresses
    }
}

/// The wire bytes of a lookup reply with valid relay hosts.
pub open spec fn enc_lookup_raw_reply(m: LookupRawReplyView) -> Seq<u8> {
    enc_uint(m.peers.len() as u64) + crate::compact_encoding::enc_many(hyper_peer_item(), m.peers) + enc_uint(m.bump)
}

/// The size of a lookup reply.
pub open spec fn lookup_raw_reply_size(m: LookupRawReplyView) -> nat {
    uint_size(m.peers.len() as u64) + hyper_peers_size(m.peers) + uint_size(m.bump)
}

/// Reads a lookup reply: a count and that many peer records, then the bump
/// counter when bytes are left (zero otherwise).
pub open spec fn parse_lookup_raw_reply(s: Seq<u8>) -> PResult<LookupRawReplyView> {
    match parse_uint(s) {
        Err(e) => Err(e),
        Ok((n, k1)) => match crate::compact_encoding::parse_many(hyper_peer_parser(), s.skip(k1 as int), (n as usize) as nat) {
            Err(e) => Err(e),
            Ok((peers, k2)) => {
                let t = s.skip((k1 + k2) as int);
                if t.len() > 0 {
                    match parse_uint(t) {
                        Err(e) => Err(e),
                        Ok((bump, k3)) => Ok((LookupRawReplyView { peers, bump }, k1 + k2 + k3)),
                    }
                } else {
                    Ok((LookupRawReplyView { peers, bump: 0 }, k1 + k2))
                }
            },
        },
    }
}

pub(crate) proof fn lemma_hyper_peers_prefix(ps: Seq<HyperPeerView>, i: int)
    requires
        0 <= i < ps.len(),
    ensures
        hyper_peers_size(ps.take(i + 1)) == hyper_peers_size(ps.take(i)) + hyper_peer_size(ps[i]),
        all_relays(ps.take(i + 1)) == all_relays(ps.take(i)) + ps[i].relay_addresses,
{
    assert(ps.take(i + 1).drop_last() =~= ps.take(i));
}

pub(crate) proof fn lemma_hyper_peers_size_mono(ps: Seq<HyperPeerView>, i: int)
    requires
        0 <= i <= ps.len(),
    ensures
        hyper_peers_size(ps.take(i)) <= hyper_peers_size(ps),
    decreases ps.len() - i,
{
    if i < ps.len() {
        lemma_hyper_peers_prefix(ps, i);
        lemma_hyper_peers_size_mono(ps, i + 1);
    } else {
        assert(ps.take(i) =~= ps);
    }
}

pub(crate) proof fn lemma_all_relays_split(ps: Seq<HyperPeerView>, i: int)
    requires
        0 <= i <= ps.len(),
    ensures
        all_relays(ps) == all_relays(ps.take(i)) + all_relays(ps.skip(i)),
    decreases ps.len(),
{
    if i == ps.len() {
        assert(ps.take(i) =~= ps);
        assert(ps.skip(i) =~= Seq::<HyperPeerView>::empty());
        assert(all_relays(ps) + Seq::empty() =~= all_relays(ps));
    } else {
        let q = ps.drop_last();
        lemma_all_relays_split(q, i);
        assert(q.take(i) =~= ps.take(i));
        assert(ps.skip(i).drop_last() =~= q.skip(i));
        assert(ps.skip(i).last() == ps.last());
        assert(all_relays(ps) =~= all_relays(ps.take(i)) + all_relays(ps.skip(i)));
    }
}

/// Pre-encodes a [`LookupRawReply`].
pub fn preencode_lookup_raw_reply(state: &mut State, m: &LookupRawReply)
    requires
        old(state).end + lookup_raw_reply_size(m@) <= usize::MAX,
    ensures
        planned(*old(state), *final(state), lookup_raw_reply_size(m@)),
{
    let ghost ps = m@.peers;
    let ghost s0 = *state;
    preencode_uint(state, m.peers.len() as u64);
    let mut i: usize = 0;
    while i < m.peers.len()
        invariant
            i <= m.peers@.len(),
            ps == m@.peers,
            ps.len() == m.peers@.len(),
            s0 == *old(state),
            s0.end + lookup_raw_reply_size(m@) <= usize::MAX,
            planned(s0, *state, uint_size(ps.len() as u64) + hyper_peers_size(ps.take(i as int))),
        decreases m.peers@.len() - i,
    {
        proof {
            lemma_hyper_peers_prefix(ps, i as int);
            lemma_hyper_peers_size_mono(ps, i + 1);
            assert(ps[i as int] == m.peers@[i as int]@);
        }
        preencode_hyper_peer(state, &m.peers[i]);
        i = i + 1;
    }
    proof {
        assert(ps.take(i as int) =~= ps);
    }
    preencode_uint(state, m.bump);
}

/// Encodes a [`LookupRawReply`]; the first bad relay host is refused with its text.
pub fn encode_lookup_raw_reply(state: &mut State, m: &LookupRawReply) -> (r: Result<()>)
    requires
        old(state).start + lookup_raw_reply_size(m@) <= old(state).buffer@.len(),
    ensures
        r is Ok <==> valid_peers(all_relays(m@.peers)),
        r is Ok ==> wrote(*old(state), *final(state), enc_lookup_raw_reply(m@)),
        r matches Err(e) ==> first_bad_host(all_relays(m@.peers), e),
{
    let ghost ps = m@.peers;
    let ghost s0 = *state;
    proof {
        lemma_uint_roundtrip(ps.len() as u64, Seq::empty());
    }
    encode_uint(state, m.peers.len() as u64);
    let ghost s1 = *state;
    proof {
        lemma_wrote_nothing(s1);
    }
    let mut i: usize = 0;
    while i < m.peers.len()
        invariant
            i <= m.peers@.len(),
            ps == m@.peers,
            ps.len() == m.peers@.len(),
            s0 == *old(state),
            s0.start + lookup_raw_reply_size(m@) <= s0.buffer@.len(),
            wrote(s0, s1, enc_uint(ps.len() as u64)),
            s1.start == s0.start + uint_size(ps.len() as u64),
            valid_peers(all_relays(ps.take(i as int))),
            crate::compact_encoding::enc_many(hyper_peer_item(), ps.take(i as int)).len() == hyper_peers_size(
                ps.take(i as int),
            ),
            wrote(s1, *state, crate::compact_encoding::enc_many(hyper_peer_item(), ps.take(i as int))),
        decreases m.peers@.len() - i,
    {
        let ghost before = *state;
        proof {
            lemma_hyper_peers_prefix(ps, i as int);
            lemma_hyper_peers_size_mono(ps, i + 1);
            assert(ps[i as int] == m.peers@[i as int]@);
        }
        match encode_hyper_peer(state, &m.peers[i]) {
            Ok(()) => {
                proof {
                    crate::compact_encoding::lemma_enc_many_step(hyper_peer_item(), ps, i as int);
                    lemma_wrote_trans(
                        s1,
                        before,
                        *state,
                        crate::compact_encoding::enc_many(hyper_peer_item(), ps.take(i as int)),
                        enc_hyper_peer(ps[i as int]),
                    );
                    lemma_valid_peers_concat(all_relays(ps.take(i as int)), ps[i as int].relay_addresses);
                }
                i = i + 1;
            },
            Err(e) => {
                proof {
                    lemma_first_bad_host_right(all_relays(ps.take(i as int)), ps[i as int].relay_addresses, e);
                    lemma_first_bad_host_left(all_relays(ps.take(i + 1)), all_relays(ps.skip(i + 1)), e);
                    lemma_all_relays_split(ps, i + 1);
                    lemma_first_bad_host_invalid(all_relays(ps), e);
                }
                return Err(e);
            },
        }
    }
    proof {
        assert(ps.take(i as int) =~= ps);
    }
    let ghost s2 = *state;
    proof {
        lemma_uint_roundtrip(m.bump, Seq::empty());
    }
    encode_uint(state, m.bump);
    proof {
        lemma_wrote_trans(s0, s1, s2, enc_uint(ps.len() as u64), crate::compact_encoding::enc_many(hyper_peer_item(), ps));
        lemma_wrote_trans(
            s0,
            s2,
            *state,
            enc_uint(ps.len() as u64) + crate::compact_encoding::enc_many(hyper_peer_item(), ps),
            enc_uint(m.bump),
        );
    }
    Ok(())
}

/// Decodes a [`LookupRawReply`].
pub fn decode_lookup_raw_reply(state: &mut State) -> (r: Result<LookupRawReply>)
    requires
        old(state).readable(),
    ensures
        read_as(*old(state), *final(state), r, parse_lookup_raw_reply(old(state).rest()), |v: LookupRawReply| v@),
{
    let ghost s0 = *state;
    let count = decode_uint(state)? as usize;
    let ghost s1 = *state;
    proof {
        lemma_rest_skip(s0, s1, (s1.start - s0.start) as nat);
        assert(hyper_peers_view(Seq::<HyperPeer>::empty()) =~= Seq::<HyperPeerView>::empty());
    }
    let mut peers: Vec<HyperPeer> = Vec::new();
    let mut i: usize = 0;
    while i < count
        invariant
            i <= count,
            s0 == *old(state),
            s0.readable(),
            parse_uint(s0.rest()) matches Ok((n, k)) && (n as usize) == count && s1.start == s0.start + k
                && s1.rest() == s0.rest().skip(k as int) && s1.buffer@ == s0.buffer@ && s1.end == s0.end,
            s1.readable(),
            state.buffer@ == s1.buffer@,
            state.end == s1.end,
            s1.start <= state.start,
            state.start - s1.start <= s1.rest().len(),
            crate::compact_encoding::parse_many(hyper_peer_parser(), s1.rest(), i as nat) == Ok::<
                (Seq<HyperPeerView>, nat),
                EncodingError,
            >((hyper_peers_view(peers@), (state.start - s1.start) as nat)),
        decreases count - i,
    {
        let ghost before = *state;
        proof {
            lemma_rest_skip(s1, before, (before.start - s1.start) as nat);
        }
        match decode_hyper_peer(state) {
            Ok(p) => {
                let ghost old_peers = peers@;
                peers.push(p);
                proof {
                    assert(hyper_peers_view(peers@) =~= hyper_peers_view(old_peers).push(p@));
                }
                i = i + 1;
            },
            Err(e) => {
                proof {
                    assert(crate::compact_encoding::parse_many(hyper_peer_parser(), s1.rest(), (i + 1) as nat) == Err::<
                        (Seq<HyperPeerView>, nat),
                        EncodingError,
                    >(e));
                    crate::compact_encoding::lemma_parse_many_err(hyper_peer_parser(), s1.rest(), (i + 1) as nat, count as nat);
                }
                return Err(e);
            },
        }
    }
    let ghost s2 = *state;
    proof {
        lemma_rest_skip(s1, s2, (s2.start - s1.start) as nat);
        lemma_skip_skip(s0.rest(), (s1.start - s0.start) as nat, (s2.start - s1.start) as nat);
    }
    let bump = if state.start < state.end {
        decode_uint(state)?
    } else {
        0
    };
    Ok(LookupRawReply { peers, bump })
}

/// Serializes a [`LookupRawReply`] to a byte vector.
pub fn encode_lookup_raw_reply_to_bytes(m: &LookupRawReply) -> (r: Result<Vec<u8>>)
    requires
        lookup_raw_reply_size(m@) <= usize::MAX,
    ensures
        r is Ok <==> valid_peers(all_relays(m@.peers)),
        r matches Ok(b) ==> b@ == enc_lookup_raw_reply(m@),
        r matches Err(e) ==> first_bad_host(all_relays(m@.peers), e),
{
    let mut state = State::new();
    preencode_lookup_raw_reply(&mut state, m);
    state.allocate();
    encode_lookup_raw_reply(&mut state, m)?;
    proof {
        assert forall|i: int| 0 <= i < m@.peers.len() implies (#[trigger] m@.peers[i]).public_key.len() == 32 by {
            assert(m@.peers[i] == m.peers@[i]@);
        }
        lemma_lookup_raw_reply_size(m@);
        assert(state.buffer@ =~= enc_lookup_raw_reply(m@));
    }
    Ok(state.buffer)
}

/// Deserializes a [`LookupRawReply`] from the start of a byte slice.
pub fn decode_lookup_raw_reply_from_bytes(buf: &[u8]) -> (r: Result<LookupRawReply>)
    ensures
        decoded_as(r, parse_lookup_raw_reply(buf@), |v: LookupRawReply| v@),
{
    let mut state = State::from_buffer(buf);
    proof {
        assert(state.rest() =~= buf@);
    }
    decode_lookup_raw_reply(&mut state)
}

/// A lookup reply with valid relay hosts is as long as planned.
pub proof fn lemma_lookup_raw_reply_size(m: LookupRawReplyView)
    requires
        valid_peers(all_relays(m.peers)),
        forall|i: int| 0 <= i < m.peers.len() ==> (#[trigger] m.peers[i]).public_key.len() == 32,
        lookup_raw_reply_size(m) <= usize::MAX,
    ensures
        enc_lookup_raw_reply(m).len() == lookup_raw_reply_size(m),
{
    lemma_uint_roundtrip(m.peers.len() as u64, Seq::empty());
    lemma_uint_roundtrip(m.bump, Seq::empty());
    lemma_hyper_peers_enc_len(m.peers);
}

pub(crate) proof fn lemma_hyper_peers_enc_len(ps: Seq<HyperPeerView>)
    requires
        valid_peers(all_relays(ps)),
        forall|i: int| 0 <= i < ps.len() ==> (#[trigger] ps[i]).public_key.len() == 32,
    ensures
        crate::compact_encoding::enc_many(hyper_peer_item(), ps).len() == hyper_peers_size(ps),
    decreases ps.len(),
{
    if ps.len() > 0 {
        let q = ps.drop_last();
        lemma_valid_peers_concat(all_relays(q), ps.last().relay_addresses);
        lemma_hyper_peers_enc_len(q);
        let p = ps.last();
        assert(p == ps[ps.len() - 1]);
        assert forall|i: int| 0 <= i < q.len() implies (#[trigger] q[i]).public_key.len() == 32 by {
            assert(q[i] == ps[i]);
        }
        lemma_peers_len(p.relay_addresses);
        lemma_uint_roundtrip(p.relay_addresses.len() as u64, Seq::empty());
        assert(enc_hyper_peer(p).len() == hyper_peer_size(p));
        assert(hyper_peer_item()(p) == enc_hyper_peer(p));
        assert(crate::compact_encoding::enc_many(hyper_peer_item(), ps) == crate::compact_encoding::enc_many(
            hyper_peer_item(),
            q,
        ) + hyper_peer_item()(p));
    }
}

/// A lookup reply with valid relay hosts reads back with canonical host texts.
pub proof fn lemma_lookup_raw_reply_roundtrip(m: LookupRawReplyView, rest: Seq<u8>)
    requires
        m.peers.len() <= usize::MAX,
        valid_peers(all_relays(m.peers)),
        forall|i: int|
            0 <= i < m.peers.len() ==> (#[trigger] m.peers[i]).public_key.len() == 32 && m.peers[i].relay_addresses.len()
                <= 0x100000,
    ensures
        parse_lookup_raw_reply(enc_lookup_raw_reply(m) + rest) == Ok::<(LookupRawReplyView, nat), EncodingError>((
            LookupRawReplyView { peers: m.peers.map_values(|p: HyperPeerView| canon_hyper_peer(p)), bump: m.bump },
            enc_lookup_raw_reply(m).len(),
        )),
{
    let ps = m.peers;
    let a = enc_uint(ps.len() as u64);
    let b = crate::compact_encoding::enc_many(hyper_peer_item(), ps);
    let c = enc_uint(m.bump);
    let t1 = b + (c + rest);
    lemma_assoc3(a, b, c, rest);
    lemma_uint_roundtrip(ps.len() as u64, t1);
    lemma_skip_append(a, t1);
    assert forall|i: int, r: Seq<u8>| 0 <= i < ps.len() implies #[trigger] hyper_peer_parser()(hyper_peer_item()(ps[i]) + r)
        == Ok::<(HyperPeerView, nat), EncodingError>(((|p: HyperPeerView| canon_hyper_peer(p))(ps[i]), hyper_peer_item()(ps[i]).len())) by {
        lemma_valid_peers_in_all(ps, i);
        lemma_hyper_peer_roundtrip(ps[i], r);
    }
    crate::compact_encoding::lemma_many_roundtrip(hyper_peer_parser(), hyper_peer_item(), |p: HyperPeerView| canon_hyper_peer(p), ps, c + rest);
    lemma_skip_append(b, c + rest);
    lemma_skip_skip(a + t1, a.len(), b.len());
    lemma_uint_roundtrip(m.bump, rest);
    assert(((ps.len() as u64) as usize) as nat == ps.len());
    let t = (a + t1).skip((a.len() + b.len()) as int);
    assert(t == c + rest);
    assert(t.len() > 0);
}

pub(crate) proof fn lemma_valid_peers_in_all(ps: Seq<HyperPeerView>, i: int)
    requires
        0 <= i < ps.len(),
        valid_peers(all_relays(ps)),
    ensures
        valid_peers(ps[i].relay_addresses),
{
    lemma_all_relays_split(ps, i + 1);
    lemma_valid_peers_concat(all_relays(ps.take(i + 1)), all_relays(ps.skip(i + 1)));
    lemma_hyper_peers_prefix(ps, i);
    lemma_valid_peers_concat(all_relays(ps.take(i)), ps[i].relay_addresses);
}

// ── Mutable records ─────────────────────────────────────────────────────────

/// A signed mutable record stored under a public key.
#[derive(Debug, Clone, PartialEq, Eq)]
pub struct MutablePutRequest {
    pub public_key: [u8; 32],
    pub seq: u64,
    pub value: Vec<u8>,
    pub signature: [u8; 64],
}

/// A mutable record as plain values.
pub struct MutablePutRequestView {
    pub public_key: Seq<u8>,
    pub seq: u64,
    pub value: Seq<u8>,
    pub signature: Seq<u8>,
}

impl View for MutablePutRequest {
    type V = MutablePutRequestView;

    open spec fn view(&self) -> MutablePutRequestView {
        MutablePutRequestView {
            public_key: self.public_key@,
            seq: self.seq,
            value: self.value@,
            signature: self.signature@,
        }
    }
}

/// The wire bytes of a mutable record.
pub open spec fn enc_mutable_put_request(m: MutablePutRequestView) -> Seq<u8> {
    m.public_key + enc_uint(m.seq) + enc_buffer(Some(m.value)) + m.signature
}

/// The size of a mutable record.
pub open spec fn mutable_put_request_size(m: MutablePutRequestView) -> nat {
    32 + uint_size(m.seq) + buffer_size(Some(m.value)) + 64
}

/// Reads a mutable record; an absent value reads as empty.
pub open spec fn parse_mutable_put_request(s: Seq<u8>) -> PResult<MutablePutRequestView> {
    match parse_fixed(s, 32) {
        Err(e) => Err(e),
        Ok((pk, k1)) => match parse_uint(s.skip(k1 as int)) {
            Err(e) => Err(e),
            Ok((seq, k2)) => match parse_buffer(s.skip((k1 + k2) as int)) {
                Err(e) => Err(e),
                Ok((v, k3)) => match parse_fixed(s.skip((k1 + k2 + k3) as int), 64) {
                    Err(e) => Err(e),
                    Ok((sig, k4)) => Ok((
                        MutablePutRequestView { public_key: pk, seq, value: or_empty(v), signature: sig },
                        k1 + k2 + k3 + k4,
                    )),
                },
            },
        },
    }
}

/// Pre-encodes a [`MutablePutRequest`].
pub fn preencode_mutable_put_request(state: &mut State, m: &MutablePutRequest)
    requires
        old(state).end + mutable_put_request_size(m@) <= usize::MAX,
    ensures
        planned(*old(state), *final(state), mutable_put_request_size(m@)),
{
    state.end = state.end + 32;
    preencode_uint(state, m.seq);
    preencode_buffer(state, Some(m.value.as_slice()));
    state.end = state.end + 64;
}

/// Encodes a [`MutablePutRequest`]; it always succeeds.
pub fn encode_mutable_put_request(state: &mut State, m: &MutablePutRequest) -> (r: Result<()>)
    requires
        old(state).start + mutable_put_request_size(m@) <= old(state).buffer@.len(),
    ensures
        r is Ok,
        wrote(*old(state), *final(state), enc_mutable_put_request(m@)),
{
    let ghost s0 = *state;
    let _n = m.value.len();
    proof {
        lemma_uint_roundtrip(m.seq, Seq::empty());
        lemma_buffer_roundtrip(Some(m.value@), Seq::empty());
    }
    encode_fixed32(state, &m.public_key);
    let ghost s1 = *state;
    encode_uint(state, m.seq);
    let ghost s2 = *state;
    encode_buffer(state, Some(m.value.as_slice()));
    let ghost s3 = *state;
    encode_fixed64(state, &m.signature);
    proof {
        lemma_wrote_trans(s0, s1, s2, m.public_key@, enc_uint(m.seq));
        lemma_wrote_trans(s0, s2, s3, m.public_key@ + enc_uint(m.seq), enc_buffer(Some(m.value@)));
        lemma_wrote_trans(s0, s3, *state, m.public_key@ + enc_uint(m.seq) + enc_buffer(Some(m.value@)), m.signature@);
    }
    Ok(())
}

/// Decodes a [`MutablePutRequest`].
pub fn decode_mutable_put_request(state: &mut State) -> (r: Result<MutablePutRequest>)
    requires
        old(state).readable(),
    ensures
        read_as(*old(state), *final(state), r, parse_mutable_put_request(old(state).rest()), |v: MutablePutRequest| v@),
{
    let ghost s0 = *state;
    let public_key = decode_fixed32(state)?;
    let ghost s1 = *state;
    proof {
        lemma_rest_skip(s0, s1, 32);
    }
    let seq = decode_uint(state)?;
    let ghost s2 = *state;
    let ghost k2 = (s2.start - s1.start) as nat;
    proof {
        lemma_rest_skip(s0, s2, 32 + k2);
        lemma_skip_skip(s0.rest(), 32, k2);
    }
    let value = decode_buffer_or_empty(state)?;
    let ghost s3 = *state;
    let ghost k3 = (s3.start - s2.start) as nat;
    proof {
        lemma_rest_skip(s2, s3, k3);
        lemma_skip_skip(s0.rest(), 32 + k2, k3);
    }
    let signature = decode_fixed64(state)?;
    Ok(MutablePutRequest { public_key, seq, value, signature })
}

/// Serializes a [`MutablePutRequest`] to a byte vector.
pub fn encode_mutable_put_request_to_bytes(m: &MutablePutRequest) -> (r: Result<Vec<u8>>)
    requires
        mutable_put_request_size(m@) <= usize::MAX,
    ensures
        r matches Ok(b) && b@ == enc_mutable_put_request(m@),
{
    let mut state = State::new();
    preencode_mutable_put_request(&mut state, m);
    state.allocate();
    encode_mutable_put_request(&mut state, m)?;
    proof {
        let _n = m.value@.len();
        lemma_uint_roundtrip(m.seq, Seq::empty());
        lemma_buffer_roundtrip(Some(m.value@), Seq::empty());
        assert(state.buffer@ =~= enc_mutable_put_request(m@));
    }
    Ok(state.buffer)
}

/// Deserializes a [`MutablePutRequest`] from the start of a byte slice.
pub fn decode_mutable_put_request_from_bytes(buf: &[u8]) -> (r: Result<MutablePutRequest>)
    ensures
        decoded_as(r, parse_mutable_put_request(buf@), |v: MutablePutRequest| v@),
{
    let mut state = State::from_buffer(buf);
    proof {
        assert(state.rest() =~= buf@);
    }
    decode_mutable_put_request(&mut state)
}

/// A mutable record reads back as itself.
pub proof fn lemma_mutable_put_request_roundtrip(m: MutablePutRequestView, rest: Seq<u8>)
    requires
        m.public_key.len() == 32,
        m.signature.len() == 64,
        m.value.len() <= usize::MAX,
    ensures
        parse_mutable_put_request(enc_mutable_put_request(m) + rest) == Ok::<(MutablePutRequestView, nat), EncodingError>((
            m,
            enc_mutable_put_request(m).len(),
        )),
{
    let a = m.public_key;
    let b = enc_uint(m.seq);
    let c = enc_buffer(Some(m.value));
    let d = m.signature;
    let t3 = d + rest;
    let t2 = c + t3;
    let t1 = b + t2;
    lemma_assoc4(a, b, c, d, rest);
    lemma_fixed_roundtrip(a, t1);
    lemma_skip_append(a, t1);
    lemma_uint_roundtrip(m.seq, t2);
    lemma_skip_append(b, t2);
    lemma_skip_skip(a + t1, a.len(), b.len());
    lemma_buffer_roundtrip(Some(m.value), t3);
    lemma_skip_append(c, t3);
    lemma_skip_skip(a + t1, a.len() + b.len(), c.len());
    lemma_fixed_roundtrip(d, rest);
    if m.value.len() == 0 {
        assert(m.value =~= Seq::<u8>::empty());
    }
}

/// A mutable record as returned by a get: sequence number, value and signature.
#[derive(Debug, Clone, PartialEq, Eq)]
pub struct MutableGetResponse {
    pub seq: u64,
    pub value: Vec<u8>,
    pub signature: [u8; 64],
}

/// A get response as plain values.
pub struct MutableGetResponseView {
    pub seq: u64,
    pub value: Seq<u8>,
    pub signature: Seq<u8>,
}

impl View for MutableGetResponse {
    type V = MutableGetResponseView;

    open spec fn view(&self) -> MutableGetResponseView {
        MutableGetResponseView { seq: self.seq, value: self.value@, signature: self.signature@ }
    }
}

/// The wire bytes of a get response.
pub open spec fn enc_mutable_get_response(m: MutableGetResponseView) -> Seq<u8> {
    enc_uint(m.seq) + enc_buffer(Some(m.value)) + m.signature
}

/// The size of a get response.
pub open spec fn mutable_get_response_size(m: MutableGetResponseView) -> nat {
    uint_size(m.seq) + buffer_size(Some(m.value)) + 64
}

/// Reads a get response; an absent value reads as empty.
pub open spec fn parse_mutable_get_response(s: Seq<u8>) -> PResult<MutableGetResponseView> {
    match parse_uint(s) {
        Err(e) => Err(e),
        Ok((seq, k1)) => match parse_buffer(s.skip(k1 as int)) {
            Err(e) => Err(e),
            Ok((v, k2)) => match parse_fixed(s.skip((k1 + k2) as int), 64) {
                Err(e) => Err(e),
                Ok((sig, k3)) => Ok((MutableGetResponseView { seq, value: or_empty(v), signature: sig }, k1 + k2 + k3)),
            },
        },
    }
}

/// Pre-encodes a [`MutableGetResponse`].
pub fn preencode_mutable_get_response(state: &mut State, m: &MutableGetResponse)
    requires
        old(state).end + mutable_get_response_size(m@) <= usize::MAX,
    ensures
        planned(*old(state), *final(state), mutable_get_response_size(m@)),
{
    preencode_uint(state, m.seq);
    preencode_buffer(state, Some(m.value.as_slice()));
    state.end = state.end + 64;
}

/// Encodes a [`MutableGetResponse`]; it always succeeds.
pub fn encode_mutable_get_response(state: &mut State, m: &MutableGetResponse) -> (r: Result<()>)
    requires
        old(state).start + mutable_get_response_size(m@) <= old(state).buffer@.len(),
    ensures
        r is Ok,
        wrote(*old(state), *final(state), enc_mutable_get_response(m@)),
{
    let ghost s0 = *state;
    let _n = m.value.len();
    proof {
        lemma_uint_roundtrip(m.seq, Seq::empty());
        lemma_buffer_roundtrip(Some(m.value@), Seq::empty());
    }
    encode_uint(state, m.seq);
    let ghost s1 = *state;
    encode_buffer(state, Some(m.value.as_slice()));
    let ghost s2 = *state;
    encode_fixed64(state, &m.signature);
    proof {
        lemma_wrote_trans(s0, s1, s2, enc_uint(m.seq), enc_buffer(Some(m.value@)));
        lemma_wrote_trans(s0, s2, *state, enc_uint(m.seq) + enc_buffer(Some(m.value@)), m.signature@);
    }
    Ok(())
}

/// Decodes a [`MutableGetResponse`].
pub fn decode_mutable_get_response(state: &mut State) -> (r: Result<MutableGetResponse>)
    requires
        old(state).readable(),
    ensures
        read_as(*old(state), *final(state), r, parse_mutable_get_response(old(state).rest()), |v: MutableGetResponse| v@),
{
    let ghost s0 = *state;
    let seq = decode_uint(state)?;
    let ghost s1 = *state;
    let ghost k1 = (s1.start - s0.start) as nat;
    proof {
        lemma_rest_skip(s0, s1, k1);
    }
    let value = decode_buffer_or_empty(state)?;
    let ghost s2 = *state;
    let ghost k2 = (s2.start - s1.start) as nat;
    proof {
        lemma_rest_skip(s1, s2, k2);
        lemma_skip_skip(s0.rest(), k1, k2);
    }
    let signature = decode_fixed64(state)?;
    Ok(MutableGetResponse { seq, value, signature })
}

/// Serializes a [`MutableGetResponse`] to a byte vector.
pub fn encode_mutable_get_response_to_bytes(m: &MutableGetResponse) -> (r: Result<Vec<u8>>)
    requires
        mutable_get_response_size(m@) <= usize::MAX,
    ensures
        r matches Ok(b) && b@ == enc_mutable_get_response(m@),
{
    let mut state = State::new();
    preencode_mutable_get_response(&mut state, m);
    state.allocate();
    encode_mutable_get_response(&mut state, m)?;
    proof {
        lemma_uint_roundtrip(m.seq, Seq::empty());
        lemma_buffer_roundtrip(Some(m.value@), Seq::empty());
        assert(state.buffer@ =~= enc_mutable_get_response(m@));
    }
    Ok(state.buffer)
}

/// Deserializes a [`MutableGetResponse`] from the start of a byte slice.
pub fn decode_mutable_get_response_from_bytes(buf: &[u8]) -> (r: Result<MutableGetResponse>)
    ensures
        decoded_as(r, parse_mutable_get_response(buf@), |v: MutableGetResponse| v@),
{
    let mut state = State::from_buffer(buf);
    proof {
        assert(state.rest() =~= buf@);
    }
    decode_mutable_get_response(&mut state)
}

/// A get response reads back as itself.
pub proof fn lemma_mutable_get_response_roundtrip(m: MutableGetResponseView, rest: Seq<u8>)
    requires
        m.signature.len() == 64,
        m.value.len() <= usize::MAX,
    ensures
        parse_mutable_get_response(enc_mutable_get_response(m) + rest) == Ok::<(MutableGetResponseView, nat), EncodingError>((
            m,
            enc_mutable_get_response(m).len(),
        )),
{
    let a = enc_uint(m.seq);
    let b = enc_buffer(Some(m.value));
    let c = m.signature;
    let t2 = c + rest;
    let t1 = b + t2;
    lemma_assoc3(a, b, c, rest);
    lemma_uint_roundtrip(m.seq, t1);
    lemma_skip_append(a, t1);
    lemma_buffer_roundtrip(Some(m.value), t2);
    lemma_skip_append(b, t2);
    lemma_skip_skip(a + t1, a.len(), b.len());
    lemma_fixed_roundtrip(c, rest);
    if m.value.len() == 0 {
        assert(m.value =~= Seq::<u8>::empty());
    }
}

/// What the owner of a mutable record signs: its sequence number and value.
#[derive(Debug, Clone, PartialEq, Eq)]
pub struct MutableSignable {
    pub seq: u64,
    pub value: Vec<u8>,
}

/// The wire bytes of a signable record.
pub open spec fn enc_mutable_signable(seq: u64, value: Seq<u8>) -> Seq<u8> {
    enc_uint(seq) + enc_buffer(Some(value))
}

/// Reads a signable record; an absent value reads as empty.
pub open spec fn parse_mutable_signable(s: Seq<u8>) -> PResult<(u64, Seq<u8>)> {
    match parse_uint(s) {
        Err(e) => Err(e),
        Ok((seq, k1)) => match parse_buffer(s.skip(k1 as int)) {
            Err(e) => Err(e),
            Ok((v, k2)) => Ok(((seq, or_empty(v)), k1 + k2)),
        },
    }
}

/// Pre-encodes a [`MutableSignable`].
pub fn preencode_mutable_signable(state: &mut State, m: &MutableSignable)
    requires
        old(state).end + uint_size(m.seq) + buffer_size(Some(m.value@)) <= usize::MAX,
    ensures
        planned(*old(state), *final(state), uint_size(m.seq) + buffer_size(Some(m.value@))),
{
    preencode_uint(state, m.seq);
    preencode_buffer(state, Some(m.value.as_slice()));
}

/// Encodes a [`MutableSignable`]; it always succeeds.
pub fn encode_mutable_signable(state: &mut State, m: &MutableSignable) -> (r: Result<()>)
    requires
        old(state).start + uint_size(m.seq) + buffer_size(Some(m.value@)) <= old(state).buffer@.len(),
    ensures
        r is Ok,
        wrote(*old(state), *final(state), enc_mutable_signable(m.seq, m.value@)),
{
    let ghost s0 = *state;
    let _n = m.value.len();
    proof {
        lemma_uint_roundtrip(m.seq, Seq::empty());
        lemma_buffer_roundtrip(Some(m.value@), Seq::empty());
    }
    encode_uint(state, m.seq);
    let ghost s1 = *state;
    encode_buffer(state, Some(m.value.as_slice()));
    proof {
        lemma_wrote_trans(s0, s1, *state, enc_uint(m.seq), enc_buffer(Some(m.value@)));
    }
    Ok(())
}

/// Decodes a [`MutableSignable`].
pub fn decode_mutable_signable(state: &mut State) -> (r: Result<MutableSignable>)
    requires
        old(state).readable(),
    ensures
        read_as(*old(state), *final(state), r, parse_mutable_signable(old(state).rest()), |v: MutableSignable| (v.seq, v.value@)),
{
    let ghost s0 = *state;
    let seq = decode_uint(state)?;
    let ghost s1 = *state;
    proof {
        lemma_rest_skip(s0, s1, (s1.start - s0.start) as nat);
    }
    let value = decode_buffer_or_empty(state)?;
    Ok(MutableSignable { seq, value })
}

/// Serializes a [`MutableSignable`] to a byte vector.
pub fn encode_mutable_signable_to_bytes(m: &MutableSignable) -> (r: Result<Vec<u8>>)
    requires
        uint_size(m.seq) + buffer_size(Some(m.value@)) <= usize::MAX,
    ensures
        r matches Ok(b) && b@ == enc_mutable_signable(m.seq, m.value@),
{
    let mut state = State::new();
    preencode_mutable_signable(&mut state, m);
    state.allocate();
    encode_mutable_signable(&mut state, m)?;
    proof {
        lemma_uint_roundtrip(m.seq, Seq::empty());
        lemma_buffer_roundtrip(Some(m.value@), Seq::empty());
        assert(state.buffer@ =~= enc_mutable_signable(m.seq, m.value@));
    }
    Ok(state.buffer)
}

/// Deserializes a [`MutableSignable`] from the start of a byte slice.
pub fn decode_mutable_signable_from_bytes(buf: &[u8]) -> (r: Result<MutableSignable>)
    ensures
        decoded_as(r, parse_mutable_signable(buf@), |v: MutableSignable| (v.seq, v.value@)),
{
    let mut state = State::from_buffer(buf);
    proof {
        assert(state.rest() =~= buf@);
    }
    decode_mutable_signable(&mut state)
}

/// A signable record reads back as itself.
pub proof fn lemma_mutable_signable_roundtrip(seq: u64, value: Seq<u8>, rest: Seq<u8>)
    requires
        value.len() <= usize::MAX,
    ensures
        parse_mutable_signable(enc_mutable_signable(seq, value) + rest) == Ok::<((u64, Seq<u8>), nat), EncodingError>((
            (seq, value),
            enc_mutable_signable(seq, value).len(),
        )),
{
    let a = enc_uint(seq);
    let b = enc_buffer(Some(value));
    assert(a + b + rest =~= a + (b + rest));
    lemma_uint_roundtrip(seq, b + rest);
    lemma_skip_append(a, b + rest);
    lemma_buffer_roundtrip(Some(value), rest);
    if value.len() == 0 {
        assert(value =~= Seq::<u8>::empty());
    }
}

// ── Optional peers ──────────────────────────────────────────────────────────

/// A present peer's six bytes, else nothing.
pub open spec fn enc_opt_peer(p: Option<(Seq<char>, u16)>) -> Seq<u8> {
    match p {
        Some(p) => enc_peer(p),
        None => Seq::empty(),
    }
}

/// The size of [`enc_opt_peer`].
pub open spec fn opt_peer_size(p: Option<(Seq<char>, u16)>) -> nat {
    if p is Some {
        6
    } else {
        0
    }
}

pub(crate) fn encode_opt_peer(state: &mut State, p: &Option<Ipv4Peer>) -> (r: Result<()>)
    requires
        old(state).start + opt_peer_size(opt_peer_view(*p)) <= old(state).buffer@.len(),
    ensures
        r is Ok <==> valid_peers(opt_peers(opt_peer_view(*p))),
        r is Ok ==> wrote(*old(state), *final(state), enc_opt_peer(opt_peer_view(*p))),
        r is Ok ==> enc_opt_peer(opt_peer_view(*p)).len() == opt_peer_size(opt_peer_view(*p)),
        r matches Err(e) ==> first_bad_host(opt_peers(opt_peer_view(*p)), e),
{
    match p {
        Some(peer) => {
            let r = crate::messages::encode_ipv4_peer(state, peer);
            proof {
                let ps = seq![peer@];
                assert(ps[0] == peer@);
                if valid_peers(ps) {
                    assert(crate::compact_encoding::valid_host(ps[0].0));
                }
                if r is Ok {
                    crate::compact_encoding::lemma_ipv4_address_roundtrip(peer.host@, peer.port, Seq::empty());
                }
            }
            r
        },
        None => {
            proof {
                lemma_wrote_nothing(*state);
            }
            Ok(())
        },
    }
}

pub(crate) fn decode_opt_peer(state: &mut State, present: bool) -> (r: Result<Option<Ipv4Peer>>)
    requires
        old(state).readable(),
    ensures
        read_as(
            *old(state),
            *final(state),
            r,
            parse_opt(peer_parser(), old(state).rest(), present),
            |v: Option<Ipv4Peer>| opt_peer_view(v),
        ),
{
    if present {
        Ok(Some(crate::messages::decode_ipv4_peer(state)?))
    } else {
        Ok(None)
    }
}

pub(crate) proof fn lemma_single_peer_len(p: Option<(Seq<char>, u16)>)
    requires
        valid_peers(opt_peers(p)),
    ensures
        enc_opt_peer(p).len() == opt_peer_size(p),
{
    lemma_opt_peer_roundtrip(p, Seq::empty());
}

pub(crate) proof fn lemma_opt_peer_roundtrip(p: Option<(Seq<char>, u16)>, rest: Seq<u8>)
    requires
        valid_peers(opt_peers(p)),
    ensures
        enc_opt_peer(p).len() == opt_peer_size(p),
        parse_opt(peer_parser(), enc_opt_peer(p) + rest, p is Some) == Ok::<(Option<(Seq<char>, u16)>, nat), EncodingError>((
            match p {
                Some(q) => Some(crate::compact_encoding::canon_peer(q)),
                None => None,
            },
            opt_peer_size(p),
        )),
{
    if let Some(q) = p {
        assert(opt_peers(p)[0] == q);
        crate::compact_encoding::lemma_ipv4_address_roundtrip(q.0, q.1, rest);
    }
}

/// The flags byte of two optional fields tells them apart, and fits one byte.
pub proof fn lemma_flag_bits2(a: bool, b: bool)
    ensures
        ({
            let f = bit64(a, 1) | bit64(b, 2);
            &&& (f & 1 != 0) == a
            &&& (f & 2 != 0) == b
            &&& f <= 3
        }),
{
    assert({
        let f = (if a { 1u64 } else { 0u64 }) | (if b { 2u64 } else { 0u64 });
        &&& (f & 1 != 0) == a
        &&& (f & 2 != 0) == b
        &&& f <= 3
    }) by (bit_vector);
}

// ── HandshakeMessage ────────────────────────────────────────────────────────

/// A PEER_HANDSHAKE message: the routing mode, the Noise bytes and the
/// addresses the message was seen from or relayed through.
#[derive(Debug, Clone, PartialEq, Eq)]
pub struct HandshakeMessage {
    pub mode: u64,
    pub noise: Vec<u8>,
    pub peer_address: Option<Ipv4Peer>,
    pub relay_address: Option<Ipv4Peer>,
}

/// A handshake message as plain values.
pub struct HandshakeView {
    pub mode: u64,
    pub noise: Seq<u8>,
    pub peer_address: Option<(Seq<char>, u16)>,
    pub relay_address: Option<(Seq<char>, u16)>,
}

impl View for HandshakeMessage {
    type V = HandshakeView;

    open spec fn view(&self) -> HandshakeView {
        HandshakeView {
            mode: self.mode,
            noise: self.noise@,
            peer_address: opt_peer_view(self.peer_address),
            relay_address: opt_peer_view(self.relay_address),
        }
    }
}

/// The hosts a handshake message carries, in order.
pub open spec fn handshake_hosts(m: HandshakeView) -> Seq<(Seq<char>, u16)> {
    opt_peers(m.peer_address) + opt_peers(m.relay_address)
}

/// The flags of a handshake message: which addresses it carries.
pub open spec fn handshake_flags(m: HandshakeView) -> u64 {
    bit64(m.peer_address is Some, 1) | bit64(m.relay_address is Some, 2)
}

/// The wire bytes of a handshake message with valid hosts.
pub open spec fn enc_handshake(m: HandshakeView) -> Seq<u8> {
    enc_uint(handshake_flags(m)) + enc_uint(m.mode) + enc_buffer(Some(m.noise)) + enc_opt_peer(m.peer_address)
        + enc_opt_peer(m.relay_address)
}

/// The size of a handshake message.
pub open spec fn handshake_size(m: HandshakeView) -> nat {
    1 + uint_size(m.mode) + buffer_size(Some(m.noise)) + opt_peer_size(m.peer_address) + opt_peer_size(m.relay_address)
}

/// Reads a handshake message; absent Noise bytes read as empty.
pub open spec fn parse_handshake(s: Seq<u8>) -> PResult<HandshakeView> {
    match parse_uint(s) {
        Err(e) => Err(e),
        Ok((f, k1)) => match parse_uint(s.skip(k1 as int)) {
            Err(e) => Err(e),
            Ok((mode, k2)) => match parse_buffer(s.skip((k1 + k2) as int)) {
                Err(e) => Err(e),
                Ok((noise, k3)) => match parse_opt(peer_parser(), s.skip((k1 + k2 + k3) as int), f & 1 != 0) {
                    Err(e) => Err(e),
                    Ok((pa, k4)) => match parse_opt(peer_parser(), s.skip((k1 + k2 + k3 + k4) as int), f & 2 != 0) {
                        Err(e) => Err(e),
                        Ok((ra, k5)) => Ok((
                            HandshakeView { mode, noise: or_empty(noise), peer_address: pa, relay_address: ra },
                            k1 + k2 + k3 + k4 + k5,
                        )),
                    },
                },
            },
        },
    }
}

/// Pre-encodes a [`HandshakeMessage`].
pub fn preencode_handshake(state: &mut State, m: &HandshakeMessage)
    requires
        old(state).end + handshake_size(m@) <= usize::MAX,
    ensures
        planned(*old(state), *final(state), handshake_size(m@)),
{
    preencode_uint(state, 0);
    preencode_uint(state, m.mode);
    preencode_buffer(state, Some(m.noise.as_slice()));
    if m.peer_address.is_some() {
        state.end = state.end + 6;
    }
    if m.relay_address.is_some() {
        state.end = state.end + 6;
    }
}

/// Encodes a [`HandshakeMessage`]; the first bad host is refused with its text.
pub fn encode_handshake(state: &mut State, m: &HandshakeMessage) -> (r: Result<()>)
    requires
        old(state).start + handshake_size(m@) <= old(state).buffer@.len(),
    ensures
        r is Ok <==> valid_peers(handshake_hosts(m@)),
        r is Ok ==> wrote(*old(state), *final(state), enc_handshake(m@)),
        r matches Err(e) ==> first_bad_host(handshake_hosts(m@), e),
{
    let ghost s0 = *state;
    let ghost mv = m@;
    let flags = flag64(m.peer_address.is_some(), 1) | flag64(m.relay_address.is_some(), 2);
    let _n = m.noise.len();
    proof {
        lemma_flag_bits2(mv.peer_address is Some, mv.relay_address is Some);
        lemma_uint_roundtrip(flags, Seq::empty());
        lemma_uint_roundtrip(m.mode, Seq::empty());
        lemma_buffer_roundtrip(Some(mv.noise), Seq::empty());
        lemma_valid_peers_concat(opt_peers(mv.peer_address), opt_peers(mv.relay_address));
    }
    encode_uint(state, flags);
    let ghost s1 = *state;
    encode_uint(state, m.mode);
    let ghost s2 = *state;
    encode_buffer(state, Some(m.noise.as_slice()));
    let ghost s3 = *state;
    let ghost h = enc_uint(flags) + enc_uint(mv.mode) + enc_buffer(Some(mv.noise));
    proof {
        lemma_wrote_trans(s0, s1, s2, enc_uint(flags), enc_uint(mv.mode));
        lemma_wrote_trans(s0, s2, s3, enc_uint(flags) + enc_uint(mv.mode), enc_buffer(Some(mv.noise)));
    }
    match encode_opt_peer(state, &m.peer_address) {
        Ok(()) => {},
        Err(e) => {
            proof {
                lemma_first_bad_host_left(opt_peers(mv.peer_address), opt_peers(mv.relay_address), e);
            }
            return Err(e);
        },
    }
    let ghost s4 = *state;
    match encode_opt_peer(state, &m.relay_address) {
        Ok(()) => {},
        Err(e) => {
            proof {
                lemma_first_bad_host_right(opt_peers(mv.peer_address), opt_peers(mv.relay_address), e);
            }
            return Err(e);
        },
    }
    proof {
        lemma_wrote_trans(s0, s3, s4, h, enc_opt_peer(mv.peer_address));
        lemma_wrote_trans(s0, s4, *state, h + enc_opt_peer(mv.peer_address), enc_opt_peer(mv.relay_address));
    }
    Ok(())
}

/// Decodes a [`HandshakeMessage`].
pub fn decode_handshake(state: &mut State) -> (r: Result<HandshakeMessage>)
    requires
        old(state).readable(),
    ensures
        read_as(*old(state), *final(state), r, parse_handshake(old(state).rest()), |v: HandshakeMessage| v@),
{
    let ghost s0 = *state;
    let flags = decode_uint(state)?;
    let ghost s1 = *state;
    let ghost k1 = (s1.start - s0.start) as nat;
    proof {
        lemma_rest_skip(s0, s1, k1);
    }
    let mode = decode_uint(state)?;
    let ghost s2 = *state;
    let ghost k2 = (s2.start - s1.start) as nat;
    proof {
        lemma_rest_skip(s1, s2, k2);
        lemma_skip_skip(s0.rest(), k1, k2);
    }
    let noise = decode_buffer_or_empty(state)?;
    let ghost s3 = *state;
    let ghost k3 = (s3.start - s2.start) as nat;
    proof {
        lemma_rest_skip(s2, s3, k3);
        lemma_skip_skip(s0.rest(), k1 + k2, k3);
    }
    let peer_address = decode_opt_peer(state, flags & 1 != 0)?;
    let ghost s4 = *state;
    let ghost k4 = (s4.start - s3.start) as nat;
    proof {
        lemma_rest_skip(s3, s4, k4);
        lemma_skip_skip(s0.rest(), k1 + k2 + k3, k4);
    }
    let relay_address = decode_opt_peer(state, flags & 2 != 0)?;
    Ok(HandshakeMessage { mode, noise, peer_address, relay_address })
}

/// Serializes a [`HandshakeMessage`] to a byte vector.
pub fn encode_handshake_to_bytes(m: &HandshakeMessage) -> (r: Result<Vec<u8>>)
    requires
        handshake_size(m@) <= usize::MAX,
    ensures
        r is Ok <==> valid_peers(handshake_hosts(m@)),
        r matches Ok(b) ==> b@ == enc_handshake(m@),
        r matches Err(e) ==> first_bad_host(handshake_hosts(m@), e),
{
    let mut state = State::new();
    preencode_handshake(&mut state, m);
    state.allocate();
    encode_handshake(&mut state, m)?;
    proof {
        lemma_handshake_size(m@);
        assert(state.buffer@ =~= enc_handshake(m@));
    }
    Ok(state.buffer)
}

/// Deserializes a [`HandshakeMessage`] from the start of a byte slice.
pub fn decode_handshake_from_bytes(buf: &[u8]) -> (r: Result<HandshakeMessage>)
    ensures
        decoded_as(r, parse_handshake(buf@), |v: HandshakeMessage| v@),
{
    let mut state = State::from_buffer(buf);
    proof {
        assert(state.rest() =~= buf@);
    }
    decode_handshake(&mut state)
}

/// A handshake message with valid hosts is as long as planned.
pub proof fn lemma_handshake_size(m: HandshakeView)
    requires
        valid_peers(handshake_hosts(m)),
        handshake_size(m) <= usize::MAX,
    ensures
        enc_handshake(m).len() == handshake_size(m),
{
    lemma_flag_bits2(m.peer_address is Some, m.relay_address is Some);
    lemma_uint_roundtrip(handshake_flags(m), Seq::empty());
    lemma_uint_roundtrip(m.mode, Seq::empty());
    lemma_buffer_roundtrip(Some(m.noise), Seq::empty());
    lemma_valid_peers_concat(opt_peers(m.peer_address), opt_peers(m.relay_address));
    lemma_opt_peer_roundtrip(m.peer_address, Seq::empty());
    lemma_opt_peer_roundtrip(m.relay_address, Seq::empty());
}

/// A handshake message as it reads back: canonical host texts.
pub open spec fn canon_handshake(m: HandshakeView) -> HandshakeView {
    HandshakeView {
        peer_address: match m.peer_address {
            Some(p) => Some(crate::compact_encoding::canon_peer(p)),
            None => None,
        },
        relay_address: match m.relay_address {
            Some(p) => Some(crate::compact_encoding::canon_peer(p)),
            None => None,
        },
        ..m
    }
}

/// A handshake message with valid hosts reads back with canonical host texts.
#[verifier::spinoff_prover]
pub proof fn lemma_handshake_roundtrip(m: HandshakeView, rest: Seq<u8>)
    requires
        valid_peers(handshake_hosts(m)),
        m.noise.len() <= usize::MAX,
    ensures
        parse_handshake(enc_handshake(m) + rest) == Ok::<(HandshakeView, nat), EncodingError>((
            canon_handshake(m),
            enc_handshake(m).len(),
        )),
{
    let f = handshake_flags(m);
    lemma_flag_bits2(m.peer_address is Some, m.relay_address is Some);
    lemma_valid_peers_concat(opt_peers(m.peer_address), opt_peers(m.relay_address));
    let a = enc_uint(f);
    let b = enc_uint(m.mode);
    let c = enc_buffer(Some(m.noise));
    let d = enc_opt_peer(m.peer_address);
    let e = enc_opt_peer(m.relay_address);
    let t4 = e + rest;
    let t3 = d + t4;
    let t2 = c + t3;
    let t1 = b + t2;
    let t0 = a + t1;
    lemma_assoc5(a, b, c, d, e, rest);
    lemma_uint_roundtrip(f, t1);
    lemma_skip_append(a, t1);
    lemma_uint_roundtrip(m.mode, t2);
    lemma_skip_append(b, t2);
    lemma_skip_skip(t0, a.len(), b.len());
    lemma_buffer_roundtrip(Some(m.noise), t3);
    lemma_skip_append(c, t3);
    lemma_skip_skip(t0, a.len() + b.len(), c.len());
    lemma_opt_peer_roundtrip(m.peer_address, t4);
    lemma_skip_append(d, t4);
    lemma_skip_skip(t0, a.len() + b.len() + c.len(), d.len());
    lemma_opt_peer_roundtrip(m.relay_address, rest);
    if m.noise.len() == 0 {
        assert(m.noise =~= Seq::<u8>::empty());
    }
    assert(parse_uint(t0) == Ok::<(u64, nat), EncodingError>((f, a.len())));
    assert(parse_uint(t1) == Ok::<(u64, nat), EncodingError>((m.mode, b.len())));
    assert(parse_buffer(t2) matches Ok((v, k)) && or_empty(v) == m.noise && k == c.len());
}

// ── HolepunchMessage ────────────────────────────────────────────────────────

/// A PEER_HOLEPUNCH message: routing mode, session id, the encrypted payload
/// and the address it was seen from.
#[derive(Debug, Clone, PartialEq, Eq)]
pub struct HolepunchMessage {
    pub mode: u64,
    pub id: u64,
    pub payload: Vec<u8>,
    pub peer_address: Option<Ipv4Peer>,
}

/// A hole-punch message as plain values.
pub struct HolepunchMessageView {
    pub mode: u64,
    pub id: u64,
    pub payload: Seq<u8>,
    pub peer_address: Option<(Seq<char>, u16)>,
}

impl View for HolepunchMessage {
    type V = HolepunchMessageView;

    open spec fn view(&self) -> HolepunchMessageView {
        HolepunchMessageView {
            mode: self.mode,
            id: self.id,
            payload: self.payload@,
            peer_address: opt_peer_view(self.peer_address),
        }
    }
}

/// The wire bytes of a hole-punch message with a valid host.
pub open spec fn enc_holepunch_msg(m: HolepunchMessageView) -> Seq<u8> {
    enc_uint(bit64(m.peer_address is Some, 1)) + enc_uint(m.mode) + enc_uint(m.id) + enc_buffer(Some(m.payload))
        + enc_opt_peer(m.peer_address)
}

/// The size of a hole-punch message.
pub open spec fn holepunch_msg_size(m: HolepunchMessageView) -> nat {
    1 + uint_size(m.mode) + uint_size(m.id) + buffer_size(Some(m.payload)) + opt_peer_size(m.peer_address)
}

/// Reads a hole-punch message; an absent payload reads as empty.
pub open spec fn parse_holepunch_msg(s: Seq<u8>) -> PResult<HolepunchMessageView> {
    match parse_uint(s) {
        Err(e) => Err(e),
        Ok((f, k1)) => match parse_uint(s.skip(k1 as int)) {
            Err(e) => Err(e),
            Ok((mode, k2)) => match parse_uint(s.skip((k1 + k2) as int)) {
                Err(e) => Err(e),
                Ok((id, k3)) => match parse_buffer(s.skip((k1 + k2 + k3) as int)) {
                    Err(e) => Err(e),
                    Ok((payload, k4)) => match parse_opt(peer_parser(), s.skip((k1 + k2 + k3 + k4) as int), f & 1 != 0) {
                        Err(e) => Err(e),
                        Ok((pa, k5)) => Ok((
                            HolepunchMessageView { mode, id, payload: or_empty(payload), peer_address: pa },
                            k1 + k2 + k3 + k4 + k5,
                        )),
                    },
                },
            },
        },
    }
}

/// Pre-encodes a [`HolepunchMessage`].
pub fn preencode_holepunch_msg(state: &mut State, m: &HolepunchMessage)
    requires
        old(state).end + holepunch_msg_size(m@) <= usize::MAX,
    ensures
        planned(*old(state), *final(state), holepunch_msg_size(m@)),
{
    preencode_uint(state, 0);
    preencode_uint(state, m.mode);
    preencode_uint(state, m.id);
    preencode_buffer(state, Some(m.payload.as_slice()));
    if m.peer_address.is_some() {
        state.end = state.end + 6;
    }
}

/// Encodes a [`HolepunchMessage`]; a bad host is refused with its text.
pub fn encode_holepunch_msg(state: &mut State, m: &HolepunchMessage) -> (r: Result<()>)
    requires
        old(state).start + holepunch_msg_size(m@) <= old(state).buffer@.len(),
    ensures
        r is Ok <==> valid_peers(opt_peers(m@.peer_address)),
        r is Ok ==> wrote(*old(state), *final(state), enc_holepunch_msg(m@)),
        r matches Err(e) ==> first_bad_host(opt_peers(m@.peer_address), e),
{
    let ghost s0 = *state;
    let ghost mv = m@;
    let flags: u64 = flag64(m.peer_address.is_some(), 1);
    let _n = m.payload.len();
    proof {
        lemma_uint_roundtrip(flags, Seq::empty());
        lemma_uint_roundtrip(m.mode, Seq::empty());
        lemma_uint_roundtrip(m.id, Seq::empty());
        lemma_buffer_roundtrip(Some(mv.payload), Seq::empty());
    }
    encode_uint(state, flags);
    let ghost s1 = *state;
    encode_uint(state, m.mode);
    let ghost s2 = *state;
    encode_uint(state, m.id);
    let ghost s3 = *state;
    encode_buffer(state, Some(m.payload.as_slice()));
    let ghost s4 = *state;
    proof {
        lemma_wrote_trans(s0, s1, s2, enc_uint(flags), enc_uint(mv.mode));
        lemma_wrote_trans(s0, s2, s3, enc_uint(flags) + enc_uint(mv.mode), enc_uint(mv.id));
        lemma_wrote_trans(s0, s3, s4, enc_uint(flags) + enc_uint(mv.mode) + enc_uint(mv.id), enc_buffer(Some(mv.payload)));
    }
    encode_opt_peer(state, &m.peer_address)?;
    proof {
        lemma_wrote_trans(
            s0,
            s4,
            *state,
            enc_uint(flags) + enc_uint(mv.mode) + enc_uint(mv.id) + enc_buffer(Some(mv.payload)),
            enc_opt_peer(mv.peer_address),
        );
    }
    Ok(())
}

/// Decodes a [`HolepunchMessage`].
pub fn decode_holepunch_msg(state: &mut State) -> (r: Result<HolepunchMessage>)
    requires
        old(state).readable(),
    ensures
        read_as(*old(state), *final(state), r, parse_holepunch_msg(old(state).rest()), |v: HolepunchMessage| v@),
{
    let ghost s0 = *state;
    let flags = decode_uint(state)?;
    let ghost s1 = *state;
    let ghost k1 = (s1.start - s0.start) as nat;
    proof {
        lemma_rest_skip(s0, s1, k1);
    }
    let mode = decode_uint(state)?;
    let ghost s2 = *state;
    let ghost k2 = (s2.start - s1.start) as nat;
    proof {
        lemma_rest_skip(s1, s2, k2);
        lemma_skip_skip(s0.rest(), k1, k2);
    }
    let id = decode_uint(state)?;
    let ghost s3 = *state;
    let ghost k3 = (s3.start - s2.start) as nat;
    proof {
        lemma_rest_skip(s2, s3, k3);
        lemma_skip_skip(s0.rest(), k1 + k2, k3);
    }
    let payload = decode_buffer_or_empty(state)?;
    let ghost s4 = *state;
    let ghost k4 = (s4.start - s3.start) as nat;
    proof {
        lemma_rest_skip(s3, s4, k4);
        lemma_skip_skip(s0.rest(), k1 + k2 + k3, k4);
    }
    let peer_address = decode_opt_peer(state, flags & 1 != 0)?;
    Ok(HolepunchMessage { mode, id, payload, peer_address })
}

/// Serializes a [`HolepunchMessage`] to a byte vector.
pub fn encode_holepunch_msg_to_bytes(m: &HolepunchMessage) -> (r: Result<Vec<u8>>)
    requires
        holepunch_msg_size(m@) <= usize::MAX,
    ensures
        r is Ok <==> valid_peers(opt_peers(m@.peer_address)),
        r matches Ok(b) ==> b@ == enc_holepunch_msg(m@),
        r matches Err(e) ==> first_bad_host(opt_peers(m@.peer_address), e),
{
    let mut state = State::new();
    preencode_holepunch_msg(&mut state, m);
    state.allocate();
    encode_holepunch_msg(&mut state, m)?;
    proof {
        let mv = m@;
        lemma_uint_roundtrip(bit64(mv.peer_address is Some, 1), Seq::empty());
        lemma_uint_roundtrip(mv.mode, Seq::empty());
        lemma_uint_roundtrip(mv.id, Seq::empty());
        lemma_buffer_roundtrip(Some(mv.payload), Seq::empty());
        lemma_opt_peer_roundtrip(mv.peer_address, Seq::empty());
        assert(state.buffer@ =~= enc_holepunch_msg(m@));
    }
    Ok(state.buffer)
}

/// Deserializes a [`HolepunchMessage`] from the start of a byte slice.
pub fn decode_holepunch_msg_from_bytes(buf: &[u8]) -> (r: Result<HolepunchMessage>)
    ensures
        decoded_as(r, parse_holepunch_msg(buf@), |v: HolepunchMessage| v@),
{
    let mut state = State::from_buffer(buf);
    proof {
        assert(state.rest() =~= buf@);
    }
    decode_holepunch_msg(&mut state)
}

/// A hole-punch message with a valid host reads back with its canonical text.
#[verifier::spinoff_prover]
#[verifier::rlimit(40)]
pub proof fn lemma_holepunch_msg_roundtrip(m: HolepunchMessageView, rest: Seq<u8>)
    requires
        valid_peers(opt_peers(m.peer_address)),
        m.payload.len() <= usize::MAX,
    ensures
        parse_holepunch_msg(enc_holepunch_msg(m) + rest) == Ok::<(HolepunchMessageView, nat), EncodingError>((
            HolepunchMessageView {
                peer_address: match m.peer_address {
                    Some(p) => Some(crate::compact_encoding::canon_peer(p)),
                    None => None,
                },
                ..m
            },
            enc_holepunch_msg(m).len(),
        )),
{
    let f = bit64(m.peer_address is Some, 1);
    assert(f & 1 != 0 <==> m.peer_address is Some) by {
        assert((1u64 & 1u64) != 0u64 && (0u64 & 1u64) == 0u64) by (bit_vector);
    }
    let a = enc_uint(f);
    let b = enc_uint(m.mode);
    let c = enc_uint(m.id);
    let d = enc_buffer(Some(m.payload));
    let e = enc_opt_peer(m.peer_address);
    let t4 = e + rest;
    let t3 = d + t4;
    let t2 = c + t3;
    let t1 = b + t2;
    let t0 = a + t1;
    lemma_assoc5(a, b, c, d, e, rest);
    lemma_uint_roundtrip(f, t1);
    lemma_skip_append(a, t1);
    lemma_uint_roundtrip(m.mode, t2);
    lemma_skip_append(b, t2);
    lemma_skip_skip(t0, a.len(), b.len());
    lemma_uint_roundtrip(m.id, t3);
    lemma_skip_append(c, t3);
    lemma_skip_skip(t0, a.len() + b.len(), c.len());
    lemma_buffer_roundtrip(Some(m.payload), t4);
    lemma_skip_append(d, t4);
    lemma_skip_skip(t0, a.len() + b.len() + c.len(), d.len());
    lemma_opt_peer_roundtrip(m.peer_address, rest);
    if m.payload.len() == 0 {
        assert(m.payload =~= Seq::<u8>::empty());
    }
    assert(parse_uint(t0) == Ok::<(u64, nat), EncodingError>((f, a.len())));
    assert(parse_uint(t1) == Ok::<(u64, nat), EncodingError>((m.mode, b.len())));
    assert(parse_uint(t2) == Ok::<(u64, nat), EncodingError>((m.id, c.len())));
    assert(parse_buffer(t3) matches Ok((v, k)) && or_empty(v) == m.payload && k == d.len());
    assert(t0.skip(a.len() as int) == t1);
    assert(t0.skip((a.len() + b.len()) as int) == t2);
    assert(t0.skip((a.len() + b.len() + c.len()) as int) == t3);
    assert(t0.skip((a.len() + b.len() + c.len() + d.len()) as int) == t4);
}

// ── RelayInfo ───────────────────────────────────────────────────────────────

pub(crate) proof fn lemma_single_peer(p: (Seq<char>, u16), e: EncodingError)
    ensures
        valid_peers(opt_peers(Some(p))) <==> crate::compact_encoding::valid_host(p.0),
        !crate::compact_encoding::valid_host(p.0) && crate::compact_encoding::is_invalid_ipv4(e, p.0) ==> first_bad_host(
            opt_peers(Some(p)),
            e,
        ),
{
    assert(opt_peers(Some(p))[0] == p);
}

/// A relay and the address of the peer behind it.
#[derive(Debug, Clone, PartialEq, Eq)]
pub struct RelayInfo {
    pub relay_address: Ipv4Peer,
    pub peer_address: Ipv4Peer,
}

impl View for RelayInfo {
    type V = ((Seq<char>, u16), (Seq<char>, u16));

    open spec fn view(&self) -> ((Seq<char>, u16), (Seq<char>, u16)) {
        (self.relay_address@, self.peer_address@)
    }
}

/// The hosts of a relay entry, in order.
pub open spec fn relay_hosts(r: ((Seq<char>, u16), (Seq<char>, u16))) -> Seq<(Seq<char>, u16)> {
    seq![r.0, r.1]
}

/// The wire bytes of a relay entry with valid hosts.
pub open spec fn enc_relay_info(r: ((Seq<char>, u16), (Seq<char>, u16))) -> Seq<u8> {
    enc_peer(r.0) + enc_peer(r.1)
}

/// Reads a relay entry.
pub open spec fn parse_relay_info(s: Seq<u8>) -> PResult<((Seq<char>, u16), (Seq<char>, u16))> {
    match crate::compact_encoding::parse_ipv4_address(s) {
        Err(e) => Err(e),
        Ok((a, k1)) => match crate::compact_encoding::parse_ipv4_address(s.skip(k1 as int)) {
            Err(e) => Err(e),
            Ok((b, k2)) => Ok(((a, b), k1 + k2)),
        },
    }
}

/// A relay entry as it reads back: canonical host texts.
pub open spec fn canon_relay_info(r: ((Seq<char>, u16), (Seq<char>, u16))) -> ((Seq<char>, u16), (Seq<char>, u16)) {
    (crate::compact_encoding::canon_peer(r.0), crate::compact_encoding::canon_peer(r.1))
}

/// Pre-encodes a [`RelayInfo`]: two addresses of six bytes.
pub fn preencode_relay_info(state: &mut State, _m: &RelayInfo)
    requires
        old(state).end + 12 <= usize::MAX,
    ensures
        planned(*old(state), *final(state), 12),
{
    state.end = state.end + 12;
}

/// Encodes a [`RelayInfo`]; the first bad host is refused with its text.
pub fn encode_relay_info(state: &mut State, m: &RelayInfo) -> (r: Result<()>)
    requires
        old(state).start + 12 <= old(state).buffer@.len(),
    ensures
        r is Ok <==> valid_peers(relay_hosts(m@)),
        r is Ok ==> wrote(*old(state), *final(state), enc_relay_info(m@)),
        r is Ok ==> enc_relay_info(m@).len() == 12,
        r matches Err(e) ==> first_bad_host(relay_hosts(m@), e),
{
    let ghost s0 = *state;
    let ghost hs = relay_hosts(m@);
    proof {
        assert(hs =~= opt_peers(Some(m@.0)) + opt_peers(Some(m@.1)));
        lemma_valid_peers_concat(opt_peers(Some(m@.0)), opt_peers(Some(m@.1)));
    }
    match crate::messages::encode_ipv4_peer(state, &m.relay_address) {
        Ok(()) => {},
        Err(e) => {
            proof {
                lemma_single_peer(m@.0, e);
                lemma_first_bad_host_left(opt_peers(Some(m@.0)), opt_peers(Some(m@.1)), e);
            }
            return Err(e);
        },
    }
    let ghost s1 = *state;
    proof {
        lemma_single_peer(m@.0, EncodingError::ArrayTooLarge(0));
        crate::compact_encoding::lemma_ipv4_address_roundtrip(m@.0.0, m@.0.1, Seq::empty());
    }
    match crate::messages::encode_ipv4_peer(state, &m.peer_address) {
        Ok(()) => {},
        Err(e) => {
            proof {
                lemma_single_peer(m@.1, e);
                lemma_first_bad_host_right(opt_peers(Some(m@.0)), opt_peers(Some(m@.1)), e);
            }
            return Err(e);
        },
    }
    proof {
        lemma_single_peer(m@.1, EncodingError::ArrayTooLarge(0));
        crate::compact_encoding::lemma_ipv4_address_roundtrip(m@.1.0, m@.1.1, Seq::empty());
    }
    proof {
        lemma_wrote_trans(s0, s1, *state, enc_peer(m@.0), enc_peer(m@.1));
    }
    Ok(())
}

/// Decodes a [`RelayInfo`].
pub fn decode_relay_info(state: &mut State) -> (r: Result<RelayInfo>)
    requires
        old(state).readable(),
    ensures
        read_as(*old(state), *final(state), r, parse_relay_info(old(state).rest()), |v: RelayInfo| v@),
{
    let ghost s0 = *state;
    let relay_address = crate::messages::decode_ipv4_peer(state)?;
    proof {
        lemma_rest_skip(s0, *state, 6);
    }
    let peer_address = crate::messages::decode_ipv4_peer(state)?;
    Ok(RelayInfo { relay_address, peer_address })
}

pub(crate) proof fn lemma_relay_info_roundtrip(r: ((Seq<char>, u16), (Seq<char>, u16)), rest: Seq<u8>)
    requires
        valid_peers(relay_hosts(r)),
    ensures
        enc_relay_info(r).len() == 12,
        parse_relay_info(enc_relay_info(r) + rest) == Ok::<(((Seq<char>, u16), (Seq<char>, u16)), nat), EncodingError>((
            canon_relay_info(r),
            12,
        )),
{
    assert(relay_hosts(r)[0] == r.0 && relay_hosts(r)[1] == r.1);
    crate::compact_encoding::lemma_ipv4_address_roundtrip(r.0.0, r.0.1, enc_peer(r.1) + rest);
    crate::compact_encoding::lemma_ipv4_address_roundtrip(r.1.0, r.1.1, rest);
    assert(enc_relay_info(r) + rest =~= enc_peer(r.0) + (enc_peer(r.1) + rest));
    lemma_skip_append(enc_peer(r.0), enc_peer(r.1) + rest);
}

/// The canonical form of a relay entry, as a function.
pub open spec fn canon_relay_fn() -> spec_fn(((Seq<char>, u16), (Seq<char>, u16))) -> ((Seq<char>, u16), (Seq<char>, u16)) {
    |r: ((Seq<char>, u16), (Seq<char>, u16))| canon_relay_info(r)
}

/// The relay entry encoding, as a function.
pub open spec fn relay_item() -> spec_fn(((Seq<char>, u16), (Seq<char>, u16))) -> Seq<u8> {
    |r: ((Seq<char>, u16), (Seq<char>, u16))| enc_relay_info(r)
}

/// The relay entry parser, as a function.
pub open spec fn relay_parser() -> spec_fn(Seq<u8>) -> PResult<((Seq<char>, u16), (Seq<char>, u16))> {
    |s: Seq<u8>| parse_relay_info(s)
}

/// All hosts of a list of relay entries, in order.
pub open spec fn all_relay_hosts(rs: Seq<((Seq<char>, u16), (Seq<char>, u16))>) -> Seq<(Seq<char>, u16)>
    decreases rs.len(),
{
    if rs.len() == 0 {
        Seq::empty()
    } else {
        all_relay_hosts(rs.drop_last()) + relay_hosts(rs.last())
    }
}

/// The plain values of a list of relay entries.
pub open spec fn relays_view(rs: Seq<RelayInfo>) -> Seq<((Seq<char>, u16), (Seq<char>, u16))> {
    rs.map_values(|r: RelayInfo| r@)
}

pub(crate) proof fn lemma_all_relay_hosts_split(rs: Seq<((Seq<char>, u16), (Seq<char>, u16))>, i: int)
    requires
        0 <= i <= rs.len(),
    ensures
        all_relay_hosts(rs) == all_relay_hosts(rs.take(i)) + all_relay_hosts(rs.skip(i)),
    decreases rs.len(),
{
    if i == rs.len() {
        assert(rs.take(i) =~= rs);
        assert(rs.skip(i) =~= Seq::<((Seq<char>, u16), (Seq<char>, u16))>::empty());
        assert(all_relay_hosts(rs) + Seq::empty() =~= all_relay_hosts(rs));
    } else {
        let q = rs.drop_last();
        lemma_all_relay_hosts_split(q, i);
        assert(q.take(i) =~= rs.take(i));
        assert(rs.skip(i).drop_last() =~= q.skip(i));
        assert(rs.skip(i).last() == rs.last());
        assert(all_relay_hosts(rs) =~= all_relay_hosts(rs.take(i)) + all_relay_hosts(rs.skip(i)));
    }
}

pub(crate) proof fn lemma_relay_prefix(rs: Seq<((Seq<char>, u16), (Seq<char>, u16))>, i: int)
    requires
        0 <= i < rs.len(),
    ensures
        all_relay_hosts(rs.take(i + 1)) == all_relay_hosts(rs.take(i)) + relay_hosts(rs[i]),
{
    assert(rs.take(i + 1).drop_last() =~= rs.take(i));
}

pub(crate) proof fn lemma_relay_valid_each(rs: Seq<((Seq<char>, u16), (Seq<char>, u16))>, i: int)
    requires
        0 <= i < rs.len(),
        valid_peers(all_relay_hosts(rs)),
    ensures
        valid_peers(relay_hosts(rs[i])),
{
    lemma_all_relay_hosts_split(rs, i + 1);
    lemma_valid_peers_concat(all_relay_hosts(rs.take(i + 1)), all_relay_hosts(rs.skip(i + 1)));
    lemma_relay_prefix(rs, i);
    lemma_valid_peers_concat(all_relay_hosts(rs.take(i)), relay_hosts(rs[i]));
}

pub(crate) proof fn lemma_relays_len(rs: Seq<((Seq<char>, u16), (Seq<char>, u16))>)
    requires
        valid_peers(all_relay_hosts(rs)),
    ensures
        enc_many(relay_item(), rs).len() == 12 * rs.len(),
    decreases rs.len(),
{
    if rs.len() > 0 {
        let q = rs.drop_last();
        lemma_valid_peers_concat(all_relay_hosts(q), relay_hosts(rs.last()));
        lemma_relays_len(q);
        lemma_relay_info_roundtrip(rs.last(), Seq::empty());
    }
}

/// Pre-encodes a list of relay entries.
pub fn preencode_relay_info_array(state: &mut State, arr: &[RelayInfo])
    requires
        old(state).end + uint_size(arr@.len() as u64) + 12 * arr@.len() <= usize::MAX,
    ensures
        planned(*old(state), *final(state), uint_size(arr@.len() as u64) + 12 * arr@.len()),
{
    preencode_uint(state, arr.len() as u64);
    state.end = state.end + arr.len() * 12;
}

/// Encodes a list of relay entries; the first bad host is refused with its text.
pub fn encode_relay_info_array(state: &mut State, arr: &[RelayInfo]) -> (r: Result<()>)
    requires
        old(state).start + uint_size(arr@.len() as u64) + 12 * arr@.len() <= old(state).buffer@.len(),
    ensures
        r is Ok <==> valid_peers(all_relay_hosts(relays_view(arr@))),
        r is Ok ==> wrote(*old(state), *final(state), enc_array(relay_item(), relays_view(arr@))),
        r matches Err(e) ==> first_bad_host(all_relay_hosts(relays_view(arr@)), e),
{
    let ghost s0 = *state;
    let ghost rs = relays_view(arr@);
    proof {
        lemma_uint_roundtrip(arr@.len() as u64, Seq::empty());
    }
    encode_uint(state, arr.len() as u64);
    let ghost s1 = *state;
    proof {
        lemma_wrote_nothing(s1);
    }
    let mut i: usize = 0;
    while i < arr.len()
        invariant
            i <= arr@.len(),
            rs == relays_view(arr@),
            rs.len() == arr@.len(),
            s0 == *old(state),
            s0.start + uint_size(arr@.len() as u64) + 12 * arr@.len() <= s0.buffer@.len(),
            wrote(s0, s1, enc_uint(arr@.len() as u64)),
            s1.start == s0.start + uint_size(arr@.len() as u64),
            valid_peers(all_relay_hosts(rs.take(i as int))),
            enc_many(relay_item(), rs.take(i as int)).len() == 12 * i,
            wrote(s1, *state, enc_many(relay_item(), rs.take(i as int))),
        decreases arr@.len() - i,
    {
        let ghost before = *state;
        proof {
            assert(rs[i as int] == arr@[i as int]@);
            lemma_relay_prefix(rs, i as int);
        }
        match encode_relay_info(state, &arr[i]) {
            Ok(()) => {
                proof {
                    crate::compact_encoding::lemma_enc_many_step(relay_item(), rs, i as int);
                    lemma_wrote_trans(s1, before, *state, enc_many(relay_item(), rs.take(i as int)), enc_relay_info(rs[i as int]));
                    lemma_valid_peers_concat(all_relay_hosts(rs.take(i as int)), relay_hosts(rs[i as int]));
                }
                i = i + 1;
            },
            Err(e) => {
                proof {
                    lemma_first_bad_host_right(all_relay_hosts(rs.take(i as int)), relay_hosts(rs[i as int]), e);
                    lemma_first_bad_host_left(all_relay_hosts(rs.take(i + 1)), all_relay_hosts(rs.skip(i + 1)), e);
                    lemma_all_relay_hosts_split(rs, i + 1);
                    lemma_first_bad_host_invalid(all_relay_hosts(rs), e);
                }
                return Err(e);
            },
        }
    }
    proof {
        assert(rs.take(i as int) =~= rs);
        lemma_wrote_trans(s0, s1, *state, enc_uint(arr@.len() as u64), enc_many(relay_item(), rs));
    }
    Ok(())
}

/// Decodes a list of at most [`MAX_ARRAY_LENGTH`](crate::compact_encoding::MAX_ARRAY_LENGTH) relay entries.
pub fn decode_relay_info_array(state: &mut State) -> (r: Result<Vec<RelayInfo>>)
    requires
        old(state).readable(),
    ensures
        read_as(*old(state), *final(state), r, parse_array(relay_parser(), old(state).rest()), |v: Vec<RelayInfo>| relays_view(v@)),
        read_within(*old(state), *final(state), r),
{
    let ghost s0 = *state;
    let len = decode_uint(state)? as usize;
    if len > crate::compact_encoding::MAX_ARRAY_LENGTH {
        return Err(EncodingError::ArrayTooLarge(len));
    }
    let ghost s1 = *state;
    proof {
        lemma_rest_skip(s0, s1, (s1.start - s0.start) as nat);
        assert(relays_view(Seq::<RelayInfo>::empty()) =~= Seq::<((Seq<char>, u16), (Seq<char>, u16))>::empty());
    }
    let mut arr: Vec<RelayInfo> = Vec::new();
    let mut i: usize = 0;
    while i < len
        invariant
            i <= len <= crate::compact_encoding::MAX_ARRAY_LENGTH,
            s0 == *old(state),
            s0.readable(),
            parse_uint(s0.rest()) matches Ok((n, k)) && (n as usize) == len && s1.start == s0.start + k
                && s1.rest() == s0.rest().skip(k as int) && s1.buffer@ == s0.buffer@ && s1.end == s0.end,
            s1.readable(),
            state.buffer@ == s1.buffer@,
            state.end == s1.end,
            s1.start <= state.start,
            state.start - s1.start <= s1.rest().len(),
            crate::compact_encoding::parse_many(relay_parser(), s1.rest(), i as nat) == Ok::<
                (Seq<((Seq<char>, u16), (Seq<char>, u16))>, nat),
                EncodingError,
            >((relays_view(arr@), (state.start - s1.start) as nat)),
        decreases len - i,
    {
        let ghost before = *state;
        proof {
            lemma_rest_skip(s1, before, (before.start - s1.start) as nat);
        }
        match decode_relay_info(state) {
            Ok(v) => {
                let ghost old_arr = arr@;
                arr.push(v);
                proof {
                    assert(relays_view(arr@) =~= relays_view(old_arr).push(v@));
                }
                i = i + 1;
            },
            Err(e) => {
                proof {
                    assert(crate::compact_encoding::parse_many(relay_parser(), s1.rest(), (i + 1) as nat) == Err::<
                        (Seq<((Seq<char>, u16), (Seq<char>, u16))>, nat),
                        EncodingError,
                    >(e));
                    crate::compact_encoding::lemma_parse_many_err(relay_parser(), s1.rest(), (i + 1) as nat, len as nat);
                }
                return Err(e);
            },
        }
    }
    Ok(arr)
}

// ── HolepunchInfo ───────────────────────────────────────────────────────────

/// A hole-punch session id and the relays that can reach the peer.
#[derive(Debug, Clone, PartialEq, Eq)]
pub struct HolepunchInfo {
    pub id: u64,
    pub relays: Vec<RelayInfo>,
}

impl View for HolepunchInfo {
    type V = (u64, Seq<((Seq<char>, u16), (Seq<char>, u16))>);

    open spec fn view(&self) -> (u64, Seq<((Seq<char>, u16), (Seq<char>, u16))>) {
        (self.id, relays_view(self.relays@))
    }
}

/// The wire bytes of hole-punch info with valid hosts.
pub open spec fn enc_holepunch_info(h: (u64, Seq<((Seq<char>, u16), (Seq<char>, u16))>)) -> Seq<u8> {
    enc_uint(h.0) + enc_array(relay_item(), h.1)
}

/// The size of hole-punch info.
pub open spec fn holepunch_info_size(h: (u64, Seq<((Seq<char>, u16), (Seq<char>, u16))>)) -> nat {
    uint_size(h.0) + uint_size(h.1.len() as u64) + 12 * h.1.len()
}

/// Reads hole-punch info.
pub open spec fn parse_holepunch_info(s: Seq<u8>) -> PResult<(u64, Seq<((Seq<char>, u16), (Seq<char>, u16))>)> {
    match parse_uint(s) {
        Err(e) => Err(e),
        Ok((id, k1)) => match parse_array(relay_parser(), s.skip(k1 as int)) {
            Err(e) => Err(e),
            Ok((rs, k2)) => Ok(((id, rs), k1 + k2)),
        },
    }
}

/// Pre-encodes a [`HolepunchInfo`].
pub fn preencode_holepunch_info(state: &mut State, m: &HolepunchInfo)
    requires
        old(state).end + holepunch_info_size(m@) <= usize::MAX,
    ensures
        planned(*old(state), *final(state), holepunch_info_size(m@)),
{
    preencode_uint(state, m.id);
    preencode_relay_info_array(state, m.relays.as_slice());
}

/// Encodes a [`HolepunchInfo`]; the first bad host is refused with its text.
pub fn encode_holepunch_info(state: &mut State, m: &HolepunchInfo) -> (r: Result<()>)
    requires
        old(state).start + holepunch_info_size(m@) <= old(state).buffer@.len(),
    ensures
        r is Ok <==> valid_peers(all_relay_hosts(m@.1)),
        r is Ok ==> wrote(*old(state), *final(state), enc_holepunch_info(m@)),
        r is Ok ==> enc_holepunch_info(m@).len() == holepunch_info_size(m@),
        r matches Err(e) ==> first_bad_host(all_relay_hosts(m@.1), e),
{
    let ghost s0 = *state;
    proof {
        lemma_uint_roundtrip(m.id, Seq::empty());
    }
    encode_uint(state, m.id);
    let ghost s1 = *state;
    encode_relay_info_array(state, m.relays.as_slice())?;
    proof {
        lemma_relays_len(m@.1);
        lemma_uint_roundtrip(m@.1.len() as u64, Seq::empty());
        lemma_wrote_trans(s0, s1, *state, enc_uint(m.id), enc_array(relay_item(), m@.1));
    }
    Ok(())
}

/// Decodes a [`HolepunchInfo`].
pub fn decode_holepunch_info(state: &mut State) -> (r: Result<HolepunchInfo>)
    requires
        old(state).readable(),
    ensures
        read_as(*old(state), *final(state), r, parse_holepunch_info(old(state).rest()), |v: HolepunchInfo| v@),
        read_within(*old(state), *final(state), r),
{
    let ghost s0 = *state;
    let id = decode_uint(state)?;
    proof {
        lemma_rest_skip(s0, *state, (state.start - s0.start) as nat);
    }
    let relays = decode_relay_info_array(state)?;
    Ok(HolepunchInfo { id, relays })
}

/// Hole-punch info with valid hosts and at most
/// [`MAX_ARRAY_LENGTH`](crate::compact_encoding::MAX_ARRAY_LENGTH) relays
/// reads back with canonical host texts.
pub proof fn lemma_holepunch_info_roundtrip(h: (u64, Seq<((Seq<char>, u16), (Seq<char>, u16))>), rest: Seq<u8>)
    requires
        valid_peers(all_relay_hosts(h.1)),
        h.1.len() <= 0x100000,
    ensures
        enc_holepunch_info(h).len() == holepunch_info_size(h),
        parse_holepunch_info(enc_holepunch_info(h) + rest) == Ok::<
            ((u64, Seq<((Seq<char>, u16), (Seq<char>, u16))>), nat),
            EncodingError,
        >(((h.0, h.1.map_values(canon_relay_fn())), holepunch_info_size(h))),
{
    let a = enc_uint(h.0);
    let b = enc_array(relay_item(), h.1);
    assert(a + b + rest =~= a + (b + rest));
    lemma_uint_roundtrip(h.0, b + rest);
    lemma_skip_append(a, b + rest);
    assert forall|i: int, r: Seq<u8>| 0 <= i < h.1.len() implies #[trigger] relay_parser()(relay_item()(h.1[i]) + r)
        == Ok::<(((Seq<char>, u16), (Seq<char>, u16)), nat), EncodingError>((
        canon_relay_fn()(h.1[i]),
        relay_item()(h.1[i]).len(),
    )) by {
        lemma_relay_valid_each(h.1, i);
        lemma_relay_info_roundtrip(h.1[i], r);
    }
    crate::compact_encoding::lemma_array_roundtrip(relay_parser(), relay_item(), canon_relay_fn(), h.1, rest);
    lemma_relays_len(h.1);
    lemma_uint_roundtrip(h.1.len() as u64, Seq::empty());
}

// ── UdxInfo, SecretStreamInfo, RelayThroughInfo ────────────────────────────

/// The UDX transport parameters a peer offers.
#[derive(Debug, Clone, Copy, PartialEq, Eq, Structural)]
pub struct UdxInfo {
    pub version: u64,
    pub reusable_socket: bool,
    pub id: u64,
    pub seq: u64,
}

/// The wire bytes of UDX info: version 1 is always written, then the
/// features (1 for a reusable socket), the stream id and sequence.
pub open spec fn enc_udx_info(u: UdxInfo) -> Seq<u8> {
    enc_uint(1) + enc_uint(if u.reusable_socket { 1 } else { 0 }) + enc_uint(u.id) + enc_uint(u.seq)
}

/// The size of UDX info.
pub open spec fn udx_info_size(u: UdxInfo) -> nat {
    2 + uint_size(u.id) + uint_size(u.seq)
}

/// Reads UDX info: a reusable socket is feature bit 0.
#[verifier::opaque]
pub open spec fn parse_udx_info(s: Seq<u8>) -> PResult<UdxInfo> {
    match parse_uint(s) {
        Err(e) => Err(e),
        Ok((version, k1)) => match parse_uint(s.skip(k1 as int)) {
            Err(e) => Err(e),
            Ok((features, k2)) => match parse_uint(s.skip((k1 + k2) as int)) {
                Err(e) => Err(e),
                Ok((id, k3)) => match parse_uint(s.skip((k1 + k2 + k3) as int)) {
                    Err(e) => Err(e),
                    Ok((seq, k4)) => Ok((
                        UdxInfo { version, reusable_socket: features & 1 != 0, id, seq },
                        k1 + k2 + k3 + k4,
                    )),
                },
            },
        },
    }
}

/// Pre-encodes a [`UdxInfo`].
pub fn preencode_udx_info(state: &mut State, m: &UdxInfo)
    requires
        old(state).end + udx_info_size(*m) <= usize::MAX,
    ensures
        planned(*old(state), *final(state), udx_info_size(*m)),
{
    state.end = state.end + 2;
    preencode_uint(state, m.id);
    preencode_uint(state, m.seq);
}

/// Encodes a [`UdxInfo`]; it always succeeds.
pub fn encode_udx_info(state: &mut State, m: &UdxInfo) -> (r: Result<()>)
    requires
        old(state).start + udx_info_size(*m) <= old(state).buffer@.len(),
    ensures
        r is Ok,
        wrote(*old(state), *final(state), enc_udx_info(*m)),
        enc_udx_info(*m).len() == udx_info_size(*m),
{
    let ghost s0 = *state;
    let features: u64 = if m.reusable_socket {
        1
    } else {
        0
    };
    proof {
        lemma_uint_roundtrip(1, Seq::empty());
        lemma_uint_roundtrip(features, Seq::empty());
        lemma_uint_roundtrip(m.id, Seq::empty());
        lemma_uint_roundtrip(m.seq, Seq::empty());
    }
    encode_uint(state, 1);
    let ghost s1 = *state;
    encode_uint(state, features);
    let ghost s2 = *state;
    encode_uint(state, m.id);
    let ghost s3 = *state;
    encode_uint(state, m.seq);
    proof {
        lemma_wrote_trans(s0, s1, s2, enc_uint(1), enc_uint(features));
        lemma_wrote_trans(s0, s2, s3, enc_uint(1) + enc_uint(features), enc_uint(m.id));
        lemma_wrote_trans(s0, s3, *state, enc_uint(1) + enc_uint(features) + enc_uint(m.id), enc_uint(m.seq));
    }
    Ok(())
}

/// Decodes a [`UdxInfo`].
pub fn decode_udx_info(state: &mut State) -> (r: Result<UdxInfo>)
    requires
        old(state).readable(),
    ensures
        read_as(*old(state), *final(state), r, parse_udx_info(old(state).rest()), |v: UdxInfo| v),
        read_within(*old(state), *final(state), r),
{
    proof {
        reveal(parse_udx_info);
    }
    let ghost s0 = *state;
    let version = decode_uint(state)?;
    let ghost s1 = *state;
    let ghost k1 = (s1.start - s0.start) as nat;
    proof {
        lemma_rest_skip(s0, s1, k1);
    }
    let features = decode_uint(state)?;
    let ghost s2 = *state;
    let ghost k2 = (s2.start - s1.start) as nat;
    proof {
        lemma_rest_skip(s1, s2, k2);
        lemma_skip_skip(s0.rest(), k1, k2);
    }
    let id = decode_uint(state)?;
    let ghost s3 = *state;
    let ghost k3 = (s3.start - s2.start) as nat;
    proof {
        lemma_rest_skip(s2, s3, k3);
        lemma_skip_skip(s0.rest(), k1 + k2, k3);
    }
    let seq = decode_uint(state)?;
    Ok(UdxInfo { version, reusable_socket: features & 1 != 0, id, seq })
}

/// UDX info of version 1 reads back as itself.
pub proof fn lemma_udx_info_roundtrip(u: UdxInfo, rest: Seq<u8>)
    requires
        u.version == 1,
    ensures
        parse_udx_info(enc_udx_info(u) + rest) == Ok::<(UdxInfo, nat), EncodingError>((u, udx_info_size(u))),
        enc_udx_info(u).len() == udx_info_size(u),
{
    reveal(parse_udx_info);
    let f: u64 = if u.reusable_socket { 1 } else { 0 };
    assert((1u64 & 1u64) != 0u64 && (0u64 & 1u64) == 0u64) by (bit_vector);
    let a = enc_uint(1);
    let b = enc_uint(f);
    let c = enc_uint(u.id);
    let d = enc_uint(u.seq);
    let t2 = c + (d + rest);
    let t1 = b + t2;
    lemma_assoc4(a, b, c, d, rest);
    lemma_uint_roundtrip(1, t1);
    lemma_skip_append(a, t1);
    lemma_uint_roundtrip(f, t2);
    lemma_skip_append(b, t2);
    lemma_skip_skip(a + t1, a.len(), b.len());
    lemma_uint_roundtrip(u.id, d + rest);
    lemma_skip_append(c, d + rest);
    lemma_skip_skip(a + t1, a.len() + b.len(), c.len());
    lemma_uint_roundtrip(u.seq, rest);
}

/// The secret-stream version a peer speaks.
#[derive(Debug, Clone, Copy, PartialEq, Eq, Structural)]
pub struct SecretStreamInfo {
    pub version: u64,
}

/// Pre-encodes a [`SecretStreamInfo`]: one byte.
pub fn preencode_secret_stream_info(state: &mut State, _m: &SecretStreamInfo)
    requires
        old(state).end + 1 <= usize::MAX,
    ensures
        planned(*old(state), *final(state), 1),
{
    preencode_uint(state, 1);
}

/// Encodes a [`SecretStreamInfo`]: version 1 is always written.
pub fn encode_secret_stream_info(state: &mut State, _m: &SecretStreamInfo) -> (r: Result<()>)
    requires
        old(state).start + 1 <= old(state).buffer@.len(),
    ensures
        r is Ok,
        wrote(*old(state), *final(state), enc_uint(1)),
        enc_uint(1).len() == 1,
{
    encode_uint(state, 1);
    Ok(())
}

/// Decodes a [`SecretStreamInfo`].
pub fn decode_secret_stream_info(state: &mut State) -> (r: Result<SecretStreamInfo>)
    requires
        old(state).readable(),
    ensures
        read_as(
            *old(state),
            *final(state),
            r,
            parse_uint(old(state).rest()),
            |v: SecretStreamInfo| v.version,
        ),
{
    let version = decode_uint(state)?;
    Ok(SecretStreamInfo { version })
}

/// Relaying parameters: version, the relay's public key and a token.
#[derive(Debug, Clone, PartialEq, Eq)]
pub struct RelayThroughInfo {
    pub version: u64,
    pub public_key: [u8; 32],
    pub token: [u8; 32],
}

impl View for RelayThroughInfo {
    type V = (u64, Seq<u8>, Seq<u8>);

    open spec fn view(&self) -> (u64, Seq<u8>, Seq<u8>) {
        (self.version, self.public_key@, self.token@)
    }
}

/// The wire bytes of relaying parameters: version 1 and flags 0 are always
/// written, then the key and the token.
pub open spec fn enc_relay_through_info(m: (u64, Seq<u8>, Seq<u8>)) -> Seq<u8> {
    enc_uint(1) + enc_uint(0) + m.1 + m.2
}

/// Reads relaying parameters; the flags are read and ignored.
#[verifier::opaque]
pub open spec fn parse_relay_through_info(s: Seq<u8>) -> PResult<(u64, Seq<u8>, Seq<u8>)> {
    match parse_uint(s) {
        Err(e) => Err(e),
        Ok((version, k1)) => match parse_uint(s.skip(k1 as int)) {
            Err(e) => Err(e),
            Ok((_flags, k2)) => match parse_fixed(s.skip((k1 + k2) as int), 32) {
                Err(e) => Err(e),
                Ok((pk, k3)) => match parse_fixed(s.skip((k1 + k2 + k3) as int), 32) {
                    Err(e) => Err(e),
                    Ok((token, k4)) => Ok(((version, pk, token), k1 + k2 + k3 + k4)),
                },
            },
        },
    }
}

/// Pre-encodes a [`RelayThroughInfo`]: 66 bytes.
pub fn preencode_relay_through_info(state: &mut State, _m: &RelayThroughInfo)
    requires
        old(state).end + 66 <= usize::MAX,
    ensures
        planned(*old(state), *final(state), 66),
{
    preencode_uint(state, 1);
    preencode_uint(state, 0);
    state.end = state.end + 64;
}

/// Encodes a [`RelayThroughInfo`]; it always succeeds.
pub fn encode_relay_through_info(state: &mut State, m: &RelayThroughInfo) -> (r: Result<()>)
    requires
        old(state).start + 66 <= old(state).buffer@.len(),
    ensures
        r is Ok,
        wrote(*old(state), *final(state), enc_relay_through_info(m@)),
        enc_relay_through_info(m@).len() == 66,
{
    let ghost s0 = *state;
    proof {
        lemma_uint_roundtrip(1, Seq::empty());
        lemma_uint_roundtrip(0, Seq::empty());
    }
    encode_uint(state, 1);
    let ghost s1 = *state;
    encode_uint(state, 0);
    let ghost s2 = *state;
    encode_fixed32(state, &m.public_key);
    let ghost s3 = *state;
    encode_fixed32(state, &m.token);
    proof {
        lemma_wrote_trans(s0, s1, s2, enc_uint(1), enc_uint(0));
        lemma_wrote_trans(s0, s2, s3, enc_uint(1) + enc_uint(0), m.public_key@);
        lemma_wrote_trans(s0, s3, *state, enc_uint(1) + enc_uint(0) + m.public_key@, m.token@);
    }
    Ok(())
}

/// Decodes a [`RelayThroughInfo`].
pub fn decode_relay_through_info(state: &mut State) -> (r: Result<RelayThroughInfo>)
    requires
        old(state).readable(),
    ensures
        read_as(*old(state), *final(state), r, parse_relay_through_info(old(state).rest()), |v: RelayThroughInfo| v@),
        read_within(*old(state), *final(state), r),
{
    proof {
        reveal(parse_relay_through_info);
    }
    let ghost s0 = *state;
    let version = decode_uint(state)?;
    let ghost s1 = *state;
    let ghost k1 = (s1.start - s0.start) as nat;
    proof {
        lemma_rest_skip(s0, s1, k1);
    }
    let _flags = decode_uint(state)?;
    let ghost s2 = *state;
    let ghost k2 = (s2.start - s1.start) as nat;
    proof {
        lemma_rest_skip(s1, s2, k2);
        lemma_skip_skip(s0.rest(), k1, k2);
    }
    let public_key = decode_fixed32(state)?;
    let ghost s3 = *state;
    proof {
        lemma_rest_skip(s2, s3, 32);
        lemma_skip_skip(s0.rest(), k1 + k2, 32);
    }
    let token = decode_fixed32(state)?;
    Ok(RelayThroughInfo { version, public_key, token })
}

/// Relaying parameters of version 1 read back as themselves.
pub proof fn lemma_relay_through_info_roundtrip(m: (u64, Seq<u8>, Seq<u8>), rest: Seq<u8>)
    requires
        m.0 == 1,
        m.1.len() == 32,
        m.2.len() == 32,
    ensures
        parse_relay_through_info(enc_relay_through_info(m) + rest) == Ok::<((u64, Seq<u8>, Seq<u8>), nat), EncodingError>((
            m,
            66,
        )),
        enc_relay_through_info(m).len() == 66,
{
    reveal(parse_relay_through_info);
    let a = enc_uint(1);
    let b = enc_uint(0);
    let c = m.1;
    let d = m.2;
    let t2 = c + (d + rest);
    let t1 = b + t2;
    lemma_assoc4(a, b, c, d, rest);
    lemma_uint_roundtrip(1, t1);
    lemma_skip_append(a, t1);
    lemma_uint_roundtrip(0, t2);
    lemma_skip_append(b, t2);
    lemma_skip_skip(a + t1, a.len(), b.len());
    lemma_fixed_roundtrip(c, d + rest);
    lemma_skip_append(c, d + rest);
    lemma_skip_skip(a + t1, a.len() + b.len(), c.len());
    lemma_fixed_roundtrip(d, rest);
}

// ── IPv6 peers ──────────────────────────────────────────────────────────────

/// An IPv6 peer address: the sixteen address bytes in network order and a port.
#[derive(Debug, Clone, Copy, PartialEq, Eq)]
pub struct Ipv6Peer {
    pub octets: [u8; 16],
    pub port: u16,
}

impl View for Ipv6Peer {
    type V = (Seq<u8>, u16);

    open spec fn view(&self) -> (Seq<u8>, u16) {
        (self.octets@, self.port)
    }
}

/// The eighteen wire bytes of an IPv6 peer.
pub open spec fn enc_ipv6_peer(p: (Seq<u8>, u16)) -> Seq<u8> {
    p.0 + crate::compact_encoding::le_bytes(p.1 as nat, 2)
}

/// Reads an IPv6 peer.
pub open spec fn parse_ipv6_peer(s: Seq<u8>) -> PResult<(Seq<u8>, u16)> {
    match parse_fixed(s, 16) {
        Err(e) => Err(e),
        Ok((a, k1)) => match crate::compact_encoding::parse_le(s.skip(k1 as int), 2) {
            Err(e) => Err(e),
            Ok((p, k2)) => Ok(((a, p as u16), k1 + k2)),
        },
    }
}

/// The IPv6 peer encoding, as a function.
pub open spec fn ipv6_item() -> spec_fn((Seq<u8>, u16)) -> Seq<u8> {
    |p: (Seq<u8>, u16)| enc_ipv6_peer(p)
}

/// The IPv6 peer parser, as a function.
pub open spec fn ipv6_parser() -> spec_fn(Seq<u8>) -> PResult<(Seq<u8>, u16)> {
    |s: Seq<u8>| parse_ipv6_peer(s)
}

/// The plain values of a list of IPv6 peers.
pub open spec fn ipv6_view(ps: Seq<Ipv6Peer>) -> Seq<(Seq<u8>, u16)> {
    ps.map_values(|p: Ipv6Peer| p@)
}

pub(crate) proof fn lemma_ipv6_peer_roundtrip(p: (Seq<u8>, u16), rest: Seq<u8>)
    requires
        p.0.len() == 16,
    ensures
        enc_ipv6_peer(p).len() == 18,
        parse_ipv6_peer(enc_ipv6_peer(p) + rest) == Ok::<((Seq<u8>, u16), nat), EncodingError>((p, 18)),
{
    let b = crate::compact_encoding::le_bytes(p.1 as nat, 2);
    crate::compact_encoding::lemma_le_bytes_len(p.1 as nat, 2);
    crate::compact_encoding::lemma_le_value_of_bytes(p.1 as nat, 2);
    reveal_with_fuel(crate::compact_encoding::pow256, 3);
    vstd::arithmetic::div_mod::lemma_small_mod(p.1 as nat, 65536);
    assert(enc_ipv6_peer(p) + rest =~= p.0 + (b + rest));
    lemma_fixed_roundtrip(p.0, b + rest);
    lemma_skip_append(p.0, b + rest);
    assert((b + rest).take(2) =~= b);
}

pub(crate) proof fn lemma_ipv6_many_len(ps: Seq<(Seq<u8>, u16)>)
    requires
        forall|i: int| 0 <= i < ps.len() ==> (#[trigger] ps[i]).0.len() == 16,
    ensures
        enc_many(ipv6_item(), ps).len() == 18 * ps.len(),
    decreases ps.len(),
{
    if ps.len() > 0 {
        let q = ps.drop_last();
        assert forall|i: int| 0 <= i < q.len() implies (#[trigger] q[i]).0.len() == 16 by {
            assert(q[i] == ps[i]);
        }
        lemma_ipv6_many_len(q);
        assert(ps.last() == ps[ps.len() - 1]);
        lemma_ipv6_peer_roundtrip(ps.last(), Seq::empty());
    }
}

pub(crate) fn encode_ipv6_peer(state: &mut State, p: &Ipv6Peer)
    requires
        old(state).start + 18 <= old(state).buffer@.len(),
    ensures
        wrote(*old(state), *final(state), enc_ipv6_peer(p@)),
{
    let ghost s0 = *state;
    crate::compact_encoding::write_octets16(state, &p.octets);
    let ghost s1 = *state;
    crate::compact_encoding::encode_uint16(state, p.port);
    proof {
        crate::compact_encoding::lemma_le_bytes_len(p.port as nat, 2);
        lemma_wrote_trans(s0, s1, *state, p.octets@, crate::compact_encoding::le_bytes(p.port as nat, 2));
    }
}

pub(crate) fn decode_ipv6_peer(state: &mut State) -> (r: Result<Ipv6Peer>)
    requires
        old(state).readable(),
    ensures
        read_as(*old(state), *final(state), r, parse_ipv6_peer(old(state).rest()), |v: Ipv6Peer| v@),
{
    let ghost s0 = *state;
    let octets = crate::compact_encoding::read_octets16(state)?;
    proof {
        lemma_rest_skip(s0, *state, 16);
    }
    let port = crate::compact_encoding::decode_uint16(state)?;
    Ok(Ipv6Peer { octets, port })
}

/// Pre-encodes a list of IPv6 peers.
pub fn preencode_ipv6_peer_array(state: &mut State, peers: &[Ipv6Peer])
    requires
        old(state).end + uint_size(peers@.len() as u64) + 18 * peers@.len() <= usize::MAX,
    ensures
        planned(*old(state), *final(state), uint_size(peers@.len() as u64) + 18 * peers@.len()),
{
    preencode_uint(state, peers.len() as u64);
    state.end = state.end + peers.len() * 18;
}

/// Encodes a list of IPv6 peers.
pub fn encode_ipv6_peer_array(state: &mut State, peers: &[Ipv6Peer])
    requires
        old(state).start + uint_size(peers@.len() as u64) + 18 * peers@.len() <= old(state).buffer@.len(),
    ensures
        wrote(*old(state), *final(state), enc_array(ipv6_item(), ipv6_view(peers@))),
        enc_array(ipv6_item(), ipv6_view(peers@)).len() == uint_size(peers@.len() as u64) + 18 * peers@.len(),
{
    let ghost s0 = *state;
    let ghost ps = ipv6_view(peers@);
    proof {
        lemma_uint_roundtrip(peers@.len() as u64, Seq::empty());
    }
    encode_uint(state, peers.len() as u64);
    let ghost s1 = *state;
    proof {
        lemma_wrote_nothing(s1);
    }
    let mut i: usize = 0;
    while i < peers.len()
        invariant
            i <= peers@.len(),
            ps == ipv6_view(peers@),
            s0 == *old(state),
            s0.start + uint_size(peers@.len() as u64) + 18 * peers@.len() <= s0.buffer@.len(),
            wrote(s0, s1, enc_uint(peers@.len() as u64)),
            s1.start == s0.start + uint_size(peers@.len() as u64),
            enc_many(ipv6_item(), ps.take(i as int)).len() == 18 * i,
            wrote(s1, *state, enc_many(ipv6_item(), ps.take(i as int))),
        decreases peers@.len() - i,
    {
        let ghost before = *state;
        proof {
            assert(ps[i as int] == peers@[i as int]@);
            lemma_ipv6_peer_roundtrip(ps[i as int], Seq::empty());
        }
        encode_ipv6_peer(state, &peers[i]);
        proof {
            crate::compact_encoding::lemma_enc_many_step(ipv6_item(), ps, i as int);
            lemma_wrote_trans(s1, before, *state, enc_many(ipv6_item(), ps.take(i as int)), enc_ipv6_peer(ps[i as int]));
        }
        i = i + 1;
    }
    proof {
        assert(ps.take(i as int) =~= ps);
        lemma_wrote_trans(s0, s1, *state, enc_uint(peers@.len() as u64), enc_many(ipv6_item(), ps));
    }
}

/// Decodes a list of at most [`MAX_ARRAY_LENGTH`](crate::compact_encoding::MAX_ARRAY_LENGTH) IPv6 peers.
pub fn decode_ipv6_peer_array(state: &mut State) -> (r: Result<Vec<Ipv6Peer>>)
    requires
        old(state).readable(),
    ensures
        read_as(*old(state), *final(state), r, parse_array(ipv6_parser(), old(state).rest()), |v: Vec<Ipv6Peer>| ipv6_view(v@)),
        read_within(*old(state), *final(state), r),
{
    let ghost s0 = *state;
    let len = decode_uint(state)? as usize;
    if len > crate::compact_encoding::MAX_ARRAY_LENGTH {
        return Err(EncodingError::ArrayTooLarge(len));
    }
    let ghost s1 = *state;
    proof {
        lemma_rest_skip(s0, s1, (s1.start - s0.start) as nat);
        assert(ipv6_view(Seq::<Ipv6Peer>::empty()) =~= Seq::<(Seq<u8>, u16)>::empty());
    }
    let mut arr: Vec<Ipv6Peer> = Vec::new();
    let mut i: usize = 0;
    while i < len
        invariant
            i <= len <= crate::compact_encoding::MAX_ARRAY_LENGTH,
            s0 == *old(state),
            s0.readable(),
            parse_uint(s0.rest()) matches Ok((n, k)) && (n as usize) == len && s1.start == s0.start + k
                && s1.rest() == s0.rest().skip(k as int) && s1.buffer@ == s0.buffer@ && s1.end == s0.end,
            s1.readable(),
            state.buffer@ == s1.buffer@,
            state.end == s1.end,
            s1.start <= state.start,
            state.start - s1.start <= s1.rest().len(),
            crate::compact_encoding::parse_many(ipv6_parser(), s1.rest(), i as nat) == Ok::<(Seq<(Seq<u8>, u16)>, nat), EncodingError>((
                ipv6_view(arr@),
                (state.start - s1.start) as nat,
            )),
        decreases len - i,
    {
        let ghost before = *state;
        proof {
            lemma_rest_skip(s1, before, (before.start - s1.start) as nat);
        }
        match decode_ipv6_peer(state) {
            Ok(v) => {
                let ghost old_arr = arr@;
                arr.push(v);
                proof {
                    assert(ipv6_view(arr@) =~= ipv6_view(old_arr).push(v@));
                }
                i = i + 1;
            },
            Err(e) => {
                proof {
                    assert(crate::compact_encoding::parse_many(ipv6_parser(), s1.rest(), (i + 1) as nat) == Err::<
                        (Seq<(Seq<u8>, u16)>, nat),
                        EncodingError,
                    >(e));
                    crate::compact_encoding::lemma_parse_many_err(ipv6_parser(), s1.rest(), (i + 1) as nat, len as nat);
                }
                return Err(e);
            },
        }
    }
    Ok(arr)
}

} // verus!
