//! The payloads HyperDHT peers exchange while connecting: the one inside the
//! Noise handshake and the one exchanged during hole-punch rounds.
use vstd::prelude::*;
use crate::compact_encoding::{
    buffer_size, decode_buffer, decode_fixed32, decode_fixed64, decode_uint, enc_array, enc_buffer, enc_many,
    enc_peer, enc_uint, encode_buffer, encode_fixed32, encode_fixed64, encode_uint, first_bad_host, fixed32_parser,
    fixed64_parser, lemma_buffer_roundtrip, lemma_first_bad_host_invalid, lemma_first_bad_host_left,
    lemma_first_bad_host_right, lemma_fixed_roundtrip, lemma_peers_len, lemma_peers_roundtrip, lemma_rest_skip, lemma_skip_append, lemma_skip_skip, lemma_assoc3, lemma_assoc4, lemma_assoc5,
    lemma_uint_roundtrip, lemma_valid_peers_concat, lemma_wrote_nothing, lemma_wrote_trans, opt_field, parse_array,
    parse_buffer, parse_fixed, parse_opt, parse_uint, peer_item, peer_parser, planned, preencode_buffer,
    preencode_uint, read_as, uint_parser, uint_size, valid_peers, wrote, canon_peer_fn, EncodingError, PResult,
    State,
};
use crate::messages::{
    decode_ipv4_array, encode_ipv4_array, peers_size, peers_view, preencode_ipv4_array, Ipv4Peer,
};

use crate::hyperdht_messages::{
    canon_relay_fn, HolepunchInfo, Ipv6Peer, RelayThroughInfo, Result, SecretStreamInfo, UdxInfo, all_relay_hosts, bit64, canon_relay_info, decode_holepunch_info, decode_ipv6_peer_array, decode_opt_peer, decode_relay_through_info, decode_secret_stream_info, decode_udx_info, decoded_as, enc_holepunch_info, enc_opt_peer, enc_relay_through_info, enc_udx_info, encode_holepunch_info, encode_ipv6_peer_array, encode_opt_peer, encode_relay_through_info, encode_secret_stream_info, encode_udx_info, flag64, holepunch_info_size, ipv6_item, ipv6_parser, ipv6_view, lemma_holepunch_info_roundtrip, lemma_ipv6_many_len, lemma_ipv6_peer_roundtrip, lemma_opt_fixed_roundtrip, lemma_opt_peer_roundtrip, lemma_relay_through_info_roundtrip, lemma_relays_len, lemma_single_peer_len, lemma_udx_info_roundtrip, opt_peer_size, opt_peer_view, opt_peers, parse_holepunch_info, parse_relay_through_info, parse_udx_info, preencode_holepunch_info, preencode_ipv6_peer_array, preencode_relay_through_info, preencode_secret_stream_info, preencode_udx_info, read_within, udx_info_size,
};

verus! {

// ── NoisePayload ────────────────────────────────────────────────────────────

/// The payload exchanged inside the Noise handshake.
#[derive(Debug, Clone, PartialEq, Eq)]
pub struct NoisePayload {
    pub version: u64,
    pub error: u64,
    pub firewall: u64,
    pub holepunch: Option<HolepunchInfo>,
    pub addresses4: Vec<Ipv4Peer>,
    pub addresses6: Vec<Ipv6Peer>,
    pub udx: Option<UdxInfo>,
    pub secret_stream: Option<SecretStreamInfo>,
    pub relay_through: Option<RelayThroughInfo>,
    pub relay_addresses: Option<Vec<Ipv4Peer>>,
}

/// Hole-punch info as plain values.
pub type HolepunchInfoView = (u64, Seq<((Seq<char>, u16), (Seq<char>, u16))>);

/// Relaying parameters as plain values.
pub type RelayThroughView = (u64, Seq<u8>, Seq<u8>);

/// A Noise payload as plain values.
pub struct NoisePayloadView {
    pub version: u64,
    pub error: u64,
    pub firewall: u64,
    pub holepunch: Option<HolepunchInfoView>,
    pub addresses4: Seq<(Seq<char>, u16)>,
    pub addresses6: Seq<(Seq<u8>, u16)>,
    pub udx: Option<UdxInfo>,
    pub secret_stream: Option<u64>,
    pub relay_through: Option<RelayThroughView>,
    pub relay_addresses: Option<Seq<(Seq<char>, u16)>>,
}

impl View for NoisePayload {
    type V = NoisePayloadView;

    open spec fn view(&self) -> NoisePayloadView {
        NoisePayloadView {
            version: self.version,
            error: self.error,
            firewall: self.firewall,
            holepunch: match self.holepunch {
                Some(h) => Some(h@),
                None => None,
            },
            addresses4: peers_view(self.addresses4@),
            addresses6: ipv6_view(self.addresses6@),
            udx: self.udx,
            secret_stream: match self.secret_stream {
                Some(x) => Some(x.version),
                None => None,
            },
            relay_through: match self.relay_through {
                Some(x) => Some(x@),
                None => None,
            },
            relay_addresses: match self.relay_addresses {
                Some(x) => Some(peers_view(x@)),
                None => None,
            },
        }
    }
}

const NP_FLAG_HOLEPUNCH: u64 = 1;
const NP_FLAG_ADDRESSES4: u64 = 2;
const NP_FLAG_ADDRESSES6: u64 = 4;
const NP_FLAG_UDX: u64 = 8;
const NP_FLAG_SECRET_STREAM: u64 = 16;
const NP_FLAG_RELAY_THROUGH: u64 = 32;
const NP_FLAG_RELAY_ADDRESSES: u64 = 64;

/// The flags of a Noise payload: which of its seven optional parts it carries.
pub open spec fn noise_flags(m: NoisePayloadView) -> u64 {
    bit64(m.holepunch is Some, 1) | bit64(m.addresses4.len() > 0, 2) | bit64(m.addresses6.len() > 0, 4) | bit64(
        m.udx is Some,
        8,
    ) | bit64(m.secret_stream is Some, 16) | bit64(m.relay_through is Some, 32) | bit64(m.relay_addresses is Some, 64)
}

/// Seven flag bits tell their parts apart and fit one byte.
pub proof fn lemma_flag_bits7(a: bool, b: bool, c: bool, d: bool, e: bool, f: bool, g: bool)
    ensures
        ({
            let x = bit64(a, 1) | bit64(b, 2) | bit64(c, 4) | bit64(d, 8) | bit64(e, 16) | bit64(f, 32) | bit64(g, 64);
            &&& (x & 1 != 0) == a
            &&& (x & 2 != 0) == b
            &&& (x & 4 != 0) == c
            &&& (x & 8 != 0) == d
            &&& (x & 16 != 0) == e
            &&& (x & 32 != 0) == f
            &&& (x & 64 != 0) == g
            &&& x <= 127
        }),
{
    assert({
        let x = (if a { 1u64 } else { 0u64 }) | (if b { 2u64 } else { 0u64 }) | (if c { 4u64 } else { 0u64 }) | (if d {
            8u64
        } else {
            0u64
        }) | (if e { 16u64 } else { 0u64 }) | (if f { 32u64 } else { 0u64 }) | (if g { 64u64 } else { 0u64 });
        &&& (x & 1 != 0) == a
        &&& (x & 2 != 0) == b
        &&& (x & 4 != 0) == c
        &&& (x & 8 != 0) == d
        &&& (x & 16 != 0) == e
        &&& (x & 32 != 0) == f
        &&& (x & 64 != 0) == g
        &&& x <= 127
    }) by (bit_vector);
}

/// The relay hosts of optional hole-punch info.
pub open spec fn hp_hosts(h: Option<HolepunchInfoView>) -> Seq<(Seq<char>, u16)> {
    match h {
        Some(h) => all_relay_hosts(h.1),
        None => Seq::empty(),
    }
}

/// The hosts of an optional peer list.
pub open spec fn opt_list_hosts(r: Option<Seq<(Seq<char>, u16)>>) -> Seq<(Seq<char>, u16)> {
    match r {
        Some(r) => r,
        None => Seq::empty(),
    }
}

/// Present hole-punch info, else nothing.
pub open spec fn enc_opt_hp(h: Option<HolepunchInfoView>) -> Seq<u8> {
    match h {
        Some(h) => enc_holepunch_info(h),
        None => Seq::empty(),
    }
}

/// A non-empty IPv4 peer list, else nothing.
pub open spec fn enc_list4(a: Seq<(Seq<char>, u16)>) -> Seq<u8> {
    if a.len() > 0 {
        enc_array(peer_item(), a)
    } else {
        Seq::empty()
    }
}

/// A non-empty IPv6 peer list, else nothing.
pub open spec fn enc_list6(a: Seq<(Seq<u8>, u16)>) -> Seq<u8> {
    if a.len() > 0 {
        enc_array(ipv6_item(), a)
    } else {
        Seq::empty()
    }
}

/// Present UDX info, else nothing.
pub open spec fn enc_opt_udx(u: Option<UdxInfo>) -> Seq<u8> {
    match u {
        Some(u) => enc_udx_info(u),
        None => Seq::empty(),
    }
}

/// A present secret stream (always written as version 1), else nothing.
pub open spec fn enc_opt_ss(v: Option<u64>) -> Seq<u8> {
    if v is Some {
        enc_uint(1)
    } else {
        Seq::empty()
    }
}

/// Present relaying parameters, else nothing.
pub open spec fn enc_opt_rt(r: Option<RelayThroughView>) -> Seq<u8> {
    match r {
        Some(r) => enc_relay_through_info(r),
        None => Seq::empty(),
    }
}

/// A present IPv4 peer list (even an empty one), else nothing.
pub open spec fn enc_opt_list4(r: Option<Seq<(Seq<char>, u16)>>) -> Seq<u8> {
    match r {
        Some(r) => enc_array(peer_item(), r),
        None => Seq::empty(),
    }
}

/// The hosts of a Noise payload, in order: relays of the hole-punch info,
/// the IPv4 addresses and the relay addresses.
pub open spec fn noise_hosts(m: NoisePayloadView) -> Seq<(Seq<char>, u16)> {
    hp_hosts(m.holepunch) + m.addresses4 + opt_list_hosts(m.relay_addresses)
}

/// The hosts of the first half of a Noise payload.
pub open spec fn noise_hosts_a(m: NoisePayloadView) -> Seq<(Seq<char>, u16)> {
    hp_hosts(m.holepunch) + m.addresses4
}

/// The hosts of the second half of a Noise payload.
pub open spec fn noise_hosts_b(m: NoisePayloadView) -> Seq<(Seq<char>, u16)> {
    opt_list_hosts(m.relay_addresses)
}

/// The hole-punch info, IPv4 and IPv6 addresses of a Noise payload.
pub open spec fn enc_noise_a(m: NoisePayloadView) -> Seq<u8> {
    enc_opt_hp(m.holepunch) + enc_list4(m.addresses4) + enc_list6(m.addresses6)
}

/// The UDX info, secret stream, relaying parameters and relay addresses of a
/// Noise payload.
pub open spec fn enc_noise_b(m: NoisePayloadView) -> Seq<u8> {
    enc_opt_udx(m.udx) + enc_opt_ss(m.secret_stream) + enc_opt_rt(m.relay_through) + enc_opt_list4(m.relay_addresses)
}

/// The wire bytes of a Noise payload with valid hosts: version 1 is always
/// written, then the flags, error, firewall and the present parts.
pub open spec fn enc_noise_payload(m: NoisePayloadView) -> Seq<u8> {
    enc_uint(1) + enc_noise_head(noise_flags(m), m.error, m.firewall) + enc_noise_a(m) + enc_noise_b(m)
}

/// The flags, error and firewall of a Noise payload.
pub open spec fn enc_noise_head(f: u64, error: u64, firewall: u64) -> Seq<u8> {
    enc_uint(f) + enc_uint(error) + enc_uint(firewall)
}

/// The size of the first half of a Noise payload.
pub open spec fn noise_a_size(m: NoisePayloadView) -> nat {
    (match m.holepunch {
        Some(h) => holepunch_info_size(h),
        None => 0,
    }) + (if m.addresses4.len() > 0 {
        peers_size(m.addresses4.len())
    } else {
        0
    }) + (if m.addresses6.len() > 0 {
        uint_size(m.addresses6.len() as u64) + 18 * m.addresses6.len()
    } else {
        0
    })
}

/// The size of the second half of a Noise payload.
pub open spec fn noise_b_size(m: NoisePayloadView) -> nat {
    (match m.udx {
        Some(u) => udx_info_size(u),
        None => 0,
    }) + (if m.secret_stream is Some {
        1nat
    } else {
        0nat
    }) + (if m.relay_through is Some {
        66nat
    } else {
        0nat
    }) + (match m.relay_addresses {
        Some(r) => peers_size(r.len()),
        None => 0,
    })
}

/// The bytes a Noise payload takes.
pub open spec fn noise_payload_size(m: NoisePayloadView) -> nat {
    2 + uint_size(m.error) + uint_size(m.firewall) + noise_a_size(m) + noise_b_size(m)
}

/// The bytes [`preencode_noise_payload`] plans: one byte each for version,
/// flags, error and firewall.
pub open spec fn noise_payload_plan(m: NoisePayloadView) -> nat {
    4 + noise_a_size(m) + noise_b_size(m)
}

/// Whether the fixed fields of a Noise payload have their lengths, as those
/// of [`NoisePayload`] always do.
pub open spec fn noise_wf(m: NoisePayloadView) -> bool {
    &&& forall|i: int| 0 <= i < m.addresses6.len() ==> (#[trigger] m.addresses6[i]).0.len() == 16
    &&& m.relay_through matches Some(r) ==> r.1.len() == 32 && r.2.len() == 32
}

/// The hole-punch info parser, as a function.
pub open spec fn holepunch_info_parser() -> spec_fn(Seq<u8>) -> PResult<HolepunchInfoView> {
    |s: Seq<u8>| parse_holepunch_info(s)
}

/// Reads a list of IPv6 peers when `present`, else none.
pub open spec fn parse_ipv6_list(s: Seq<u8>, present: bool) -> PResult<Seq<(Seq<u8>, u16)>> {
    if present {
        parse_array(ipv6_parser(), s)
    } else {
        Ok((Seq::empty(), 0))
    }
}

/// Reads the first half of a Noise payload.
pub open spec fn parse_noise_a(s: Seq<u8>, f: u64) -> PResult<
    (Option<HolepunchInfoView>, Seq<(Seq<char>, u16)>, Seq<(Seq<u8>, u16)>),
> {
    match parse_opt(holepunch_info_parser(), s, f & 1 != 0) {
        Err(e) => Err(e),
        Ok((hp, k1)) => match crate::messages::parse_closer(s.skip(k1 as int), f & 2 != 0) {
            Err(e) => Err(e),
            Ok((a4, k2)) => match parse_ipv6_list(s.skip((k1 + k2) as int), f & 4 != 0) {
                Err(e) => Err(e),
                Ok((a6, k3)) => Ok(((hp, a4, a6), k1 + k2 + k3)),
            },
        },
    }
}

/// The UDX info parser, as a function.
pub open spec fn udx_info_parser() -> spec_fn(Seq<u8>) -> PResult<UdxInfo> {
    |s: Seq<u8>| parse_udx_info(s)
}

/// The relaying parameters parser, as a function.
pub open spec fn relay_through_parser() -> spec_fn(Seq<u8>) -> PResult<RelayThroughView> {
    |s: Seq<u8>| parse_relay_through_info(s)
}

/// The IPv4 peer list parser, as a function.
pub open spec fn peers_parser() -> spec_fn(Seq<u8>) -> PResult<Seq<(Seq<char>, u16)>> {
    |s: Seq<u8>| parse_array(peer_parser(), s)
}

/// Reads the second half of a Noise payload.
pub open spec fn parse_noise_b(s: Seq<u8>, f: u64) -> PResult<
    (Option<UdxInfo>, Option<u64>, Option<RelayThroughView>, Option<Seq<(Seq<char>, u16)>>),
> {
    match parse_opt(udx_info_parser(), s, f & 8 != 0) {
        Err(e) => Err(e),
        Ok((udx, k1)) => match parse_opt(uint_parser(), s.skip(k1 as int), f & 16 != 0) {
            Err(e) => Err(e),
            Ok((ss, k2)) => match parse_opt(relay_through_parser(), s.skip((k1 + k2) as int), f & 32 != 0) {
                Err(e) => Err(e),
                Ok((rt, k3)) => match parse_opt(peers_parser(), s.skip((k1 + k2 + k3) as int), f & 64 != 0) {
                    Err(e) => Err(e),
                    Ok((ra, k4)) => Ok(((udx, ss, rt, ra), k1 + k2 + k3 + k4)),
                },
            },
        },
    }
}

/// The payload a peer of another version is read as: its version, nothing else.
pub open spec fn noise_defaults(version: u64) -> NoisePayloadView {
    NoisePayloadView {
        version,
        error: 0,
        firewall: 0,
        holepunch: None,
        addresses4: Seq::empty(),
        addresses6: Seq::empty(),
        udx: None,
        secret_stream: None,
        relay_through: None,
        relay_addresses: None,
    }
}

/// Reads flags, error and firewall.
pub open spec fn parse_noise_head(s: Seq<u8>) -> PResult<(u64, u64, u64)> {
    match parse_uint(s) {
        Err(e) => Err(e),
        Ok((f, k1)) => match parse_uint(s.skip(k1 as int)) {
            Err(e) => Err(e),
            Ok((error, k2)) => match parse_uint(s.skip((k1 + k2) as int)) {
                Err(e) => Err(e),
                Ok((firewall, k3)) => Ok(((f, error, firewall), k1 + k2 + k3)),
            },
        },
    }
}

/// Reads a Noise payload. A version other than 1 is read as that version
/// with every other field empty, and nothing more is read.
pub open spec fn parse_noise_payload(s: Seq<u8>) -> PResult<NoisePayloadView> {
    match parse_uint(s) {
        Err(e) => Err(e),
        Ok((version, k0)) => if version != 1 {
            Ok((noise_defaults(version), k0))
        } else {
            match parse_noise_head(s.skip(k0 as int)) {
                Err(e) => Err(e),
                Ok((h, k1)) => match parse_noise_a(s.skip((k0 + k1) as int), h.0) {
                    Err(e) => Err(e),
                    Ok((a, k2)) => match parse_noise_b(s.skip((k0 + k1 + k2) as int), h.0) {
                        Err(e) => Err(e),
                        Ok((b, k3)) => Ok((
                            NoisePayloadView {
                                version,
                                error: h.1,
                                firewall: h.2,
                                holepunch: a.0,
                                addresses4: a.1,
                                addresses6: a.2,
                                udx: b.0,
                                secret_stream: b.1,
                                relay_through: b.2,
                                relay_addresses: b.3,
                            },
                            k0 + k1 + k2 + k3,
                        )),
                    },
                },
            }
        },
    }
}

/// Pre-encodes a [`NoisePayload`], with one byte planned for each of version,
/// flags, error and firewall.
pub fn preencode_noise_payload(state: &mut State, m: &NoisePayload)
    requires
        old(state).end + noise_payload_plan(m@) <= usize::MAX,
    ensures
        planned(*old(state), *final(state), noise_payload_plan(m@)),
{
    state.end = state.end + 4;
    match &m.holepunch {
        Some(hp) => preencode_holepunch_info(state, hp),
        None => {},
    }
    if m.addresses4.len() > 0 {
        preencode_ipv4_array(state, m.addresses4.as_slice());
    }
    if m.addresses6.len() > 0 {
        preencode_ipv6_peer_array(state, m.addresses6.as_slice());
    }
    match &m.udx {
        Some(udx) => preencode_udx_info(state, udx),
        None => {},
    }
    match &m.secret_stream {
        Some(ss) => preencode_secret_stream_info(state, ss),
        None => {},
    }
    match &m.relay_through {
        Some(rt) => preencode_relay_through_info(state, rt),
        None => {},
    }
    match &m.relay_addresses {
        Some(ra) => preencode_ipv4_array(state, ra.as_slice()),
        None => {},
    }
}

fn encode_noise_a(state: &mut State, m: &NoisePayload) -> (r: Result<()>)
    requires
        old(state).start + noise_a_size(m@) <= old(state).buffer@.len(),
    ensures
        r is Ok <==> valid_peers(noise_hosts_a(m@)),
        r is Ok ==> wrote(*old(state), *final(state), enc_noise_a(m@)),
        r is Ok ==> enc_noise_a(m@).len() == noise_a_size(m@),
        r matches Err(e) ==> first_bad_host(noise_hosts_a(m@), e),
{
    let ghost mv = m@;
    let ghost hh = hp_hosts(mv.holepunch);
    let ghost p1 = enc_opt_hp(mv.holepunch);
    let ghost p2 = enc_list4(mv.addresses4);
    let ghost p3 = enc_list6(mv.addresses6);
    proof {
        lemma_valid_peers_concat(hh, mv.addresses4);
    }
    let ghost s0 = *state;
    match &m.holepunch {
        Some(hp) => {
            match encode_holepunch_info(state, hp) {
                Ok(()) => {},
                Err(e) => {
                    proof {
                        lemma_first_bad_host_left(hh, mv.addresses4, e);
                    }
                    return Err(e);
                },
            }
        },
        None => {
            proof {
                lemma_wrote_nothing(*state);
            }
        },
    }
    let ghost s1 = *state;
    if m.addresses4.len() > 0 {
        match encode_ipv4_array(state, m.addresses4.as_slice()) {
            Ok(()) => {},
            Err(e) => {
                proof {
                    lemma_first_bad_host_right(hh, mv.addresses4, e);
                }
                return Err(e);
            },
        }
        proof {
            lemma_peers_len(mv.addresses4);
            lemma_uint_roundtrip(mv.addresses4.len() as u64, Seq::empty());
        }
    } else {
        proof {
            lemma_wrote_nothing(*state);
            assert(valid_peers(mv.addresses4));
        }
    }
    let ghost s2 = *state;
    if m.addresses6.len() > 0 {
        encode_ipv6_peer_array(state, m.addresses6.as_slice());
    } else {
        proof {
            lemma_wrote_nothing(*state);
        }
    }
    proof {
        lemma_wrote_trans(s0, s1, s2, p1, p2);
        lemma_wrote_trans(s0, s2, *state, p1 + p2, p3);
    }
    Ok(())
}

fn encode_noise_b(state: &mut State, m: &NoisePayload) -> (r: Result<()>)
    requires
        old(state).start + noise_b_size(m@) <= old(state).buffer@.len(),
    ensures
        r is Ok <==> valid_peers(noise_hosts_b(m@)),
        r is Ok ==> wrote(*old(state), *final(state), enc_noise_b(m@)),
        r is Ok ==> enc_noise_b(m@).len() == noise_b_size(m@),
        r matches Err(e) ==> first_bad_host(noise_hosts_b(m@), e),
{
    let ghost mv = m@;
    let ghost p1 = enc_opt_udx(mv.udx);
    let ghost p2 = enc_opt_ss(mv.secret_stream);
    let ghost p3 = enc_opt_rt(mv.relay_through);
    let ghost p4 = enc_opt_list4(mv.relay_addresses);
    let ghost s0 = *state;
    match &m.udx {
        Some(udx) => {
            encode_udx_info(state, udx)?;
        },
        None => {
            proof {
                lemma_wrote_nothing(*state);
            }
        },
    }
    let ghost s1 = *state;
    match &m.secret_stream {
        Some(ss) => {
            encode_secret_stream_info(state, ss)?;
        },
        None => {
            proof {
                lemma_wrote_nothing(*state);
            }
        },
    }
    let ghost s2 = *state;
    match &m.relay_through {
        Some(rt) => {
            encode_relay_through_info(state, rt)?;
        },
        None => {
            proof {
                lemma_wrote_nothing(*state);
            }
        },
    }
    let ghost s3 = *state;
    match &m.relay_addresses {
        Some(ra) => {
            encode_ipv4_array(state, ra.as_slice())?;
            proof {
                lemma_peers_len(peers_view(ra@));
                lemma_uint_roundtrip(ra@.len() as u64, Seq::empty());
            }
        },
        None => {
            proof {
                lemma_wrote_nothing(*state);
            }
        },
    }
    proof {
        lemma_wrote_trans(s0, s1, s2, p1, p2);
        lemma_wrote_trans(s0, s2, s3, p1 + p2, p3);
        lemma_wrote_trans(s0, s3, *state, p1 + p2 + p3, p4);
    }
    Ok(())
}

/// Encodes a [`NoisePayload`]; the first bad host is refused with its text.
pub fn encode_noise_payload(state: &mut State, m: &NoisePayload) -> (r: Result<()>)
    requires
        old(state).start + noise_payload_size(m@) <= old(state).buffer@.len(),
    ensures
        r is Ok <==> valid_peers(noise_hosts(m@)),
        r is Ok ==> wrote(*old(state), *final(state), enc_noise_payload(m@)),
        r matches Err(e) ==> first_bad_host(noise_hosts(m@), e),
{
    let ghost mv = m@;
    let flags = flag64(m.holepunch.is_some(), NP_FLAG_HOLEPUNCH) | flag64(m.addresses4.len() > 0, NP_FLAG_ADDRESSES4)
        | flag64(m.addresses6.len() > 0, NP_FLAG_ADDRESSES6) | flag64(m.udx.is_some(), NP_FLAG_UDX) | flag64(
        m.secret_stream.is_some(),
        NP_FLAG_SECRET_STREAM,
    ) | flag64(m.relay_through.is_some(), NP_FLAG_RELAY_THROUGH) | flag64(
        m.relay_addresses.is_some(),
        NP_FLAG_RELAY_ADDRESSES,
    );
    proof {
        lemma_flag_bits7(
            mv.holepunch is Some,
            mv.addresses4.len() > 0,
            mv.addresses6.len() > 0,
            mv.udx is Some,
            mv.secret_stream is Some,
            mv.relay_through is Some,
            mv.relay_addresses is Some,
        );
        lemma_uint_roundtrip(1, Seq::empty());
        lemma_uint_roundtrip(flags, Seq::empty());
        lemma_uint_roundtrip(m.error, Seq::empty());
        lemma_uint_roundtrip(m.firewall, Seq::empty());
        assert(noise_hosts(mv) == noise_hosts_a(mv) + noise_hosts_b(mv));
        lemma_valid_peers_concat(noise_hosts_a(mv), noise_hosts_b(mv));
    }
    let ghost s0 = *state;
    encode_uint(state, 1);
    let ghost s1 = *state;
    encode_uint(state, flags);
    let ghost s2 = *state;
    encode_uint(state, m.error);
    let ghost s3 = *state;
    encode_uint(state, m.firewall);
    let ghost s4 = *state;
    let ghost h = enc_uint(1) + enc_noise_head(flags, mv.error, mv.firewall);
    proof {
        lemma_wrote_trans(s1, s2, s3, enc_uint(flags), enc_uint(mv.error));
        lemma_wrote_trans(s1, s3, s4, enc_uint(flags) + enc_uint(mv.error), enc_uint(mv.firewall));
        lemma_wrote_trans(s0, s1, s4, enc_uint(1), enc_noise_head(flags, mv.error, mv.firewall));
    }
    match encode_noise_a(state, m) {
        Ok(()) => {},
        Err(e) => {
            proof {
                lemma_first_bad_host_left(noise_hosts_a(mv), noise_hosts_b(mv), e);
            }
            return Err(e);
        },
    }
    let ghost s5 = *state;
    match encode_noise_b(state, m) {
        Ok(()) => {},
        Err(e) => {
            proof {
                lemma_first_bad_host_right(noise_hosts_a(mv), noise_hosts_b(mv), e);
            }
            return Err(e);
        },
    }
    proof {
        lemma_wrote_trans(s0, s4, s5, h, enc_noise_a(mv));
        lemma_wrote_trans(s0, s5, *state, h + enc_noise_a(mv), enc_noise_b(mv));
    }
    Ok(())
}

fn decode_opt_holepunch_info(state: &mut State, present: bool) -> (r: Result<Option<HolepunchInfo>>)
    requires
        old(state).readable(),
    ensures
        read_as(
            *old(state),
            *final(state),
            r,
            parse_opt(holepunch_info_parser(), old(state).rest(), present),
            |v: Option<HolepunchInfo>|
                match v {
                    Some(h) => Some(h@),
                    None => None,
                },
        ),
        read_within(*old(state), *final(state), r),
{
    if present {
        Ok(Some(decode_holepunch_info(state)?))
    } else {
        Ok(None)
    }
}

fn decode_list4(state: &mut State, present: bool) -> (r: Result<Vec<Ipv4Peer>>)
    requires
        old(state).readable(),
    ensures
        read_as(
            *old(state),
            *final(state),
            r,
            crate::messages::parse_closer(old(state).rest(), present),
            |v: Vec<Ipv4Peer>| peers_view(v@),
        ),
        read_within(*old(state), *final(state), r),
{
    if present {
        decode_ipv4_array(state)
    } else {
        proof {
            assert(peers_view(Seq::<Ipv4Peer>::empty()) =~= Seq::<(Seq<char>, u16)>::empty());
        }
        Ok(Vec::new())
    }
}

fn decode_list6(state: &mut State, present: bool) -> (r: Result<Vec<Ipv6Peer>>)
    requires
        old(state).readable(),
    ensures
        read_as(*old(state), *final(state), r, parse_ipv6_list(old(state).rest(), present), |v: Vec<Ipv6Peer>| ipv6_view(v@)),
        read_within(*old(state), *final(state), r),
{
    if present {
        decode_ipv6_peer_array(state)
    } else {
        proof {
            assert(ipv6_view(Seq::<Ipv6Peer>::empty()) =~= Seq::<(Seq<u8>, u16)>::empty());
        }
        Ok(Vec::new())
    }
}

fn decode_opt_udx(state: &mut State, present: bool) -> (r: Result<Option<UdxInfo>>)
    requires
        old(state).readable(),
    ensures
        read_as(*old(state), *final(state), r, parse_opt(udx_info_parser(), old(state).rest(), present), |v: Option<UdxInfo>| v),
        read_within(*old(state), *final(state), r),
{
    if present {
        Ok(Some(decode_udx_info(state)?))
    } else {
        Ok(None)
    }
}

fn decode_opt_secret_stream(state: &mut State, present: bool) -> (r: Result<Option<SecretStreamInfo>>)
    requires
        old(state).readable(),
    ensures
        read_as(
            *old(state),
            *final(state),
            r,
            parse_opt(uint_parser(), old(state).rest(), present),
            |v: Option<SecretStreamInfo>|
                match v {
                    Some(x) => Some(x.version),
                    None => None,
                },
        ),
{
    if present {
        Ok(Some(decode_secret_stream_info(state)?))
    } else {
        Ok(None)
    }
}

fn decode_opt_relay_through(state: &mut State, present: bool) -> (r: Result<Option<RelayThroughInfo>>)
    requires
        old(state).readable(),
    ensures
        read_as(
            *old(state),
            *final(state),
            r,
            parse_opt(relay_through_parser(), old(state).rest(), present),
            |v: Option<RelayThroughInfo>|
                match v {
                    Some(x) => Some(x@),
                    None => None,
                },
        ),
        read_within(*old(state), *final(state), r),
{
    if present {
        Ok(Some(decode_relay_through_info(state)?))
    } else {
        Ok(None)
    }
}

fn decode_noise_head(state: &mut State) -> (r: Result<(u64, u64, u64)>)
    requires
        old(state).readable(),
    ensures
        read_as(*old(state), *final(state), r, parse_noise_head(old(state).rest()), |v: (u64, u64, u64)| v),
{
    let ghost s0 = *state;
    let flags = decode_uint(state)?;
    let ghost s1 = *state;
    let ghost k1 = (s1.start - s0.start) as nat;
    proof {
        lemma_rest_skip(s0, s1, k1);
    }
    let error = decode_uint(state)?;
    let ghost s2 = *state;
    let ghost k2 = (s2.start - s1.start) as nat;
    proof {
        lemma_rest_skip(s1, s2, k2);
        lemma_skip_skip(s0.rest(), k1, k2);
    }
    let firewall = decode_uint(state)?;
    Ok((flags, error, firewall))
}

fn decode_noise_a(state: &mut State, flags: u64) -> (r: Result<(Option<HolepunchInfo>, Vec<Ipv4Peer>, Vec<Ipv6Peer>)>)
    requires
        old(state).readable(),
    ensures
        read_as(
            *old(state),
            *final(state),
            r,
            parse_noise_a(old(state).rest(), flags),
            |v: (Option<HolepunchInfo>, Vec<Ipv4Peer>, Vec<Ipv6Peer>)|
                (
                    match v.0 {
                        Some(h) => Some(h@),
                        None => None,
                    },
                    peers_view(v.1@),
                    ipv6_view(v.2@),
                ),
        ),
        read_within(*old(state), *final(state), r),
{
    let ghost s0 = *state;
    let holepunch = decode_opt_holepunch_info(state, flags & NP_FLAG_HOLEPUNCH != 0)?;
    let ghost s1 = *state;
    let ghost k1 = (s1.start - s0.start) as nat;
    proof {
        lemma_rest_skip(s0, s1, k1);
    }
    let addresses4 = decode_list4(state, flags & NP_FLAG_ADDRESSES4 != 0)?;
    let ghost s2 = *state;
    let ghost k2 = (s2.start - s1.start) as nat;
    proof {
        lemma_rest_skip(s1, s2, k2);
        lemma_skip_skip(s0.rest(), k1, k2);
    }
    let addresses6 = decode_list6(state, flags & NP_FLAG_ADDRESSES6 != 0)?;
    Ok((holepunch, addresses4, addresses6))
}

fn decode_peers(state: &mut State) -> (r: Result<Vec<Ipv4Peer>>)
    requires
        old(state).readable(),
    ensures
        read_as(*old(state), *final(state), r, peers_parser()(old(state).rest()), |v: Vec<Ipv4Peer>| peers_view(v@)),
        read_within(*old(state), *final(state), r),
{
    decode_ipv4_array(state)
}

fn decode_noise_b(state: &mut State, flags: u64) -> (r: Result<
    (Option<UdxInfo>, Option<SecretStreamInfo>, Option<RelayThroughInfo>, Option<Vec<Ipv4Peer>>),
>)
    requires
        old(state).readable(),
    ensures
        read_as(
            *old(state),
            *final(state),
            r,
            parse_noise_b(old(state).rest(), flags),
            |v: (Option<UdxInfo>, Option<SecretStreamInfo>, Option<RelayThroughInfo>, Option<Vec<Ipv4Peer>>)|
                (
                    v.0,
                    match v.1 {
                        Some(x) => Some(x.version),
                        None => None,
                    },
                    match v.2 {
                        Some(x) => Some(x@),
                        None => None,
                    },
                    match v.3 {
                        Some(x) => Some(peers_view(x@)),
                        None => None,
                    },
                ),
        ),
{
    let ghost s0 = *state;
    let udx = decode_opt_udx(state, flags & NP_FLAG_UDX != 0)?;
    let ghost s1 = *state;
    let ghost k1 = (s1.start - s0.start) as nat;
    proof {
        lemma_rest_skip(s0, s1, k1);
    }
    let secret_stream = decode_opt_secret_stream(state, flags & NP_FLAG_SECRET_STREAM != 0)?;
    let ghost s2 = *state;
    let ghost k2 = (s2.start - s1.start) as nat;
    proof {
        lemma_rest_skip(s1, s2, k2);
        lemma_skip_skip(s0.rest(), k1, k2);
    }
    let relay_through = decode_opt_relay_through(state, flags & NP_FLAG_RELAY_THROUGH != 0)?;
    let ghost s3 = *state;
    let ghost k3 = (s3.start - s2.start) as nat;
    proof {
        lemma_rest_skip(s2, s3, k3);
        lemma_skip_skip(s0.rest(), k1 + k2, k3);
    }
    let relay_addresses = decode_peers_opt(state, flags & NP_FLAG_RELAY_ADDRESSES != 0)?;
    Ok((udx, secret_stream, relay_through, relay_addresses))
}

/// Decodes a [`NoisePayload`]; a version other than 1 is given back with
/// every other field empty.
pub fn decode_noise_payload(state: &mut State) -> (r: Result<NoisePayload>)
    requires
        old(state).readable(),
    ensures
        read_as(*old(state), *final(state), r, parse_noise_payload(old(state).rest()), |v: NoisePayload| v@),
{
    let ghost s0 = *state;
    let version = decode_uint(state)?;
    if version != 1 {
        proof {
            assert(peers_view(Seq::<Ipv4Peer>::empty()) =~= Seq::<(Seq<char>, u16)>::empty());
            assert(ipv6_view(Seq::<Ipv6Peer>::empty()) =~= Seq::<(Seq<u8>, u16)>::empty());
        }
        return Ok(
            NoisePayload {
                version,
                error: 0,
                firewall: 0,
                holepunch: None,
                addresses4: Vec::new(),
                addresses6: Vec::new(),
                udx: None,
                secret_stream: None,
                relay_through: None,
                relay_addresses: None,
            },
        );
    }
    let ghost sv = *state;
    let ghost k0 = (sv.start - s0.start) as nat;
    proof {
        lemma_rest_skip(s0, sv, k0);
    }
    let (flags, error, firewall) = decode_noise_head(state)?;
    let ghost s3 = *state;
    let ghost k3 = (s3.start - sv.start) as nat;
    proof {
        lemma_rest_skip(sv, s3, k3);
        lemma_skip_skip(s0.rest(), k0, k3);
    }
    let (holepunch, addresses4, addresses6) = decode_noise_a(state, flags)?;
    let ghost s4 = *state;
    let ghost k4 = (s4.start - s3.start) as nat;
    proof {
        lemma_rest_skip(s3, s4, k4);
        lemma_skip_skip(s0.rest(), k0 + k3, k4);
    }
    let (udx, secret_stream, relay_through, relay_addresses) = decode_noise_b(state, flags)?;
    Ok(
        NoisePayload {
            version,
            error,
            firewall,
            holepunch,
            addresses4,
            addresses6,
            udx,
            secret_stream,
            relay_through,
            relay_addresses,
        },
    )
}

/// Serializes a [`NoisePayload`] to a byte vector. The error and firewall
/// codes must each fit the one byte planned for them.
pub fn encode_noise_payload_to_bytes(m: &NoisePayload) -> (r: Result<Vec<u8>>)
    requires
        m.error <= 0xfc,
        m.firewall <= 0xfc,
        noise_payload_plan(m@) <= usize::MAX,
    ensures
        r is Ok <==> valid_peers(noise_hosts(m@)),
        r matches Ok(b) ==> b@ == enc_noise_payload(m@),
        r matches Err(e) ==> first_bad_host(noise_hosts(m@), e),
{
    let mut state = State::new();
    preencode_noise_payload(&mut state, m);
    state.allocate();
    encode_noise_payload(&mut state, m)?;
    proof {
        assert forall|i: int| 0 <= i < m@.addresses6.len() implies (#[trigger] m@.addresses6[i]).0.len() == 16 by {
            assert(m@.addresses6[i] == m.addresses6@[i]@);
        }
        lemma_noise_payload_len(m@);
        assert(state.buffer@ =~= enc_noise_payload(m@));
    }
    Ok(state.buffer)
}

/// Deserializes a [`NoisePayload`] from the start of a byte slice.
pub fn decode_noise_payload_from_bytes(buf: &[u8]) -> (r: Result<NoisePayload>)
    ensures
        decoded_as(r, parse_noise_payload(buf@), |v: NoisePayload| v@),
{
    let mut state = State::from_buffer(buf);
    proof {
        assert(state.rest() =~= buf@);
    }
    decode_noise_payload(&mut state)
}

proof fn lemma_noise_payload_len(m: NoisePayloadView)
    requires
        valid_peers(noise_hosts(m)),
        m.error <= 0xfc,
        m.firewall <= 0xfc,
        noise_payload_plan(m) <= usize::MAX,
        noise_wf(m),
    ensures
        enc_noise_payload(m).len() == noise_payload_plan(m),
{
    lemma_flag_bits7(
        m.holepunch is Some,
        m.addresses4.len() > 0,
        m.addresses6.len() > 0,
        m.udx is Some,
        m.secret_stream is Some,
        m.relay_through is Some,
        m.relay_addresses is Some,
    );
    lemma_uint_roundtrip(1, Seq::empty());
    lemma_uint_roundtrip(noise_flags(m), Seq::empty());
    lemma_uint_roundtrip(m.error, Seq::empty());
    lemma_uint_roundtrip(m.firewall, Seq::empty());
    assert(noise_hosts(m) == noise_hosts_a(m) + noise_hosts_b(m));
    lemma_valid_peers_concat(noise_hosts_a(m), noise_hosts_b(m));
    let hh = hp_hosts(m.holepunch);
    lemma_valid_peers_concat(hh, m.addresses4);
    if let Some(h) = m.holepunch {
        lemma_relays_len(h.1);
        lemma_uint_roundtrip(h.0, Seq::empty());
        lemma_uint_roundtrip(h.1.len() as u64, Seq::empty());
    }
    if m.addresses4.len() > 0 {
        lemma_peers_len(m.addresses4);
        lemma_uint_roundtrip(m.addresses4.len() as u64, Seq::empty());
    }
    if m.addresses6.len() > 0 {
        lemma_uint_roundtrip(m.addresses6.len() as u64, Seq::empty());
    }
    if let Some(u) = m.udx {
        lemma_uint_roundtrip(if u.reusable_socket { 1 } else { 0 }, Seq::empty());
        lemma_uint_roundtrip(u.id, Seq::empty());
        lemma_uint_roundtrip(u.seq, Seq::empty());
    }
    if let Some(r) = m.relay_addresses {
        lemma_peers_len(r);
        lemma_uint_roundtrip(r.len() as u64, Seq::empty());
    }
    lemma_ipv6_many_len(m.addresses6);
}

// ── HolepunchPayload ────────────────────────────────────────────────────────

/// The payload exchanged, encrypted, during hole-punch rounds.
#[derive(Debug, Clone, PartialEq, Eq)]
pub struct HolepunchPayload {
    pub error: u64,
    pub firewall: u64,
    pub round: u64,
    pub connected: bool,
    pub punching: bool,
    pub addresses: Option<Vec<Ipv4Peer>>,
    pub remote_address: Option<Ipv4Peer>,
    pub token: Option<[u8; 32]>,
    pub remote_token: Option<[u8; 32]>,
}

/// A hole-punch payload as plain values.
pub struct HolepunchPayloadView {
    pub error: u64,
    pub firewall: u64,
    pub round: u64,
    pub connected: bool,
    pub punching: bool,
    pub addresses: Option<Seq<(Seq<char>, u16)>>,
    pub remote_address: Option<(Seq<char>, u16)>,
    pub token: Option<Seq<u8>>,
    pub remote_token: Option<Seq<u8>>,
}

impl View for HolepunchPayload {
    type V = HolepunchPayloadView;

    open spec fn view(&self) -> HolepunchPayloadView {
        HolepunchPayloadView {
            error: self.error,
            firewall: self.firewall,
            round: self.round,
            connected: self.connected,
            punching: self.punching,
            addresses: match self.addresses {
                Some(x) => Some(peers_view(x@)),
                None => None,
            },
            remote_address: opt_peer_view(self.remote_address),
            token: crate::compact_encoding::opt_arr32(self.token),
            remote_token: crate::compact_encoding::opt_arr32(self.remote_token),
        }
    }
}

const HP_FLAG_CONNECTED: u64 = 1;
const HP_FLAG_PUNCHING: u64 = 2;
const HP_FLAG_ADDRESSES: u64 = 4;
const HP_FLAG_REMOTE_ADDRESS: u64 = 8;
const HP_FLAG_TOKEN: u64 = 16;
const HP_FLAG_REMOTE_TOKEN: u64 = 32;

/// The flags of a hole-punch payload.
pub open spec fn holepunch_payload_flags(m: HolepunchPayloadView) -> u64 {
    bit64(m.connected, 1) | bit64(m.punching, 2) | bit64(m.addresses is Some, 4) | bit64(m.remote_address is Some, 8)
        | bit64(m.token is Some, 16) | bit64(m.remote_token is Some, 32)
}

/// Six flag bits tell their parts apart and fit one byte.
pub proof fn lemma_flag_bits6(a: bool, b: bool, c: bool, d: bool, e: bool, f: bool)
    ensures
        ({
            let x = bit64(a, 1) | bit64(b, 2) | bit64(c, 4) | bit64(d, 8) | bit64(e, 16) | bit64(f, 32);
            &&& (x & 1 != 0) == a
            &&& (x & 2 != 0) == b
            &&& (x & 4 != 0) == c
            &&& (x & 8 != 0) == d
            &&& (x & 16 != 0) == e
            &&& (x & 32 != 0) == f
            &&& x <= 63
        }),
{
    assert({
        let x = (if a { 1u64 } else { 0u64 }) | (if b { 2u64 } else { 0u64 }) | (if c { 4u64 } else { 0u64 }) | (if d {
            8u64
        } else {
            0u64
        }) | (if e { 16u64 } else { 0u64 }) | (if f { 32u64 } else { 0u64 });
        &&& (x & 1 != 0) == a
        &&& (x & 2 != 0) == b
        &&& (x & 4 != 0) == c
        &&& (x & 8 != 0) == d
        &&& (x & 16 != 0) == e
        &&& (x & 32 != 0) == f
        &&& x <= 63
    }) by (bit_vector);
}

/// The hosts of a hole-punch payload, in order.
pub open spec fn holepunch_payload_hosts(m: HolepunchPayloadView) -> Seq<(Seq<char>, u16)> {
    opt_list_hosts(m.addresses) + opt_peers(m.remote_address)
}

/// The optional parts of a hole-punch payload.
pub open spec fn enc_holepunch_payload_tail(m: HolepunchPayloadView) -> Seq<u8> {
    enc_opt_list4(m.addresses) + enc_opt_peer(m.remote_address) + opt_field(m.token) + opt_field(m.remote_token)
}

/// The wire bytes of a hole-punch payload with valid hosts.
pub open spec fn enc_holepunch_payload(m: HolepunchPayloadView) -> Seq<u8> {
    enc_uint(holepunch_payload_flags(m)) + enc_uint(m.error) + enc_uint(m.firewall) + enc_uint(m.round)
        + enc_holepunch_payload_tail(m)
}

/// The size of the optional parts of a hole-punch payload.
pub open spec fn holepunch_payload_tail_size(m: HolepunchPayloadView) -> nat {
    (match m.addresses {
        Some(a) => peers_size(a.len()),
        None => 0,
    }) + opt_peer_size(m.remote_address) + opt_field(m.token).len() + opt_field(m.remote_token).len()
}

/// The bytes a hole-punch payload takes.
pub open spec fn holepunch_payload_size(m: HolepunchPayloadView) -> nat {
    1 + uint_size(m.error) + uint_size(m.firewall) + uint_size(m.round) + holepunch_payload_tail_size(m)
}

/// The bytes [`preencode_holepunch_payload`] plans: one byte each for flags,
/// error, firewall and round.
pub open spec fn holepunch_payload_plan(m: HolepunchPayloadView) -> nat {
    4 + holepunch_payload_tail_size(m)
}

/// Reads four compact uints in a row.
pub open spec fn parse_uints4(s: Seq<u8>) -> PResult<(u64, u64, u64, u64)> {
    match parse_uint(s) {
        Err(e) => Err(e),
        Ok((a, k1)) => match parse_noise_head(s.skip(k1 as int)) {
            Err(e) => Err(e),
            Ok((b, k2)) => Ok(((a, b.0, b.1, b.2), k1 + k2)),
        },
    }
}

/// Reads the optional parts of a hole-punch payload.
pub open spec fn parse_holepunch_payload_tail(s: Seq<u8>, f: u64) -> PResult<
    (Option<Seq<(Seq<char>, u16)>>, Option<(Seq<char>, u16)>, Option<Seq<u8>>, Option<Seq<u8>>),
> {
    match parse_opt(peers_parser(), s, f & 4 != 0) {
        Err(e) => Err(e),
        Ok((a, k1)) => match parse_opt(peer_parser(), s.skip(k1 as int), f & 8 != 0) {
            Err(e) => Err(e),
            Ok((ra, k2)) => match parse_opt(fixed32_parser(), s.skip((k1 + k2) as int), f & 16 != 0) {
                Err(e) => Err(e),
                Ok((t, k3)) => match parse_opt(fixed32_parser(), s.skip((k1 + k2 + k3) as int), f & 32 != 0) {
                    Err(e) => Err(e),
                    Ok((rt, k4)) => Ok(((a, ra, t, rt), k1 + k2 + k3 + k4)),
                },
            },
        },
    }
}

/// Reads a hole-punch payload.
pub open spec fn parse_holepunch_payload(s: Seq<u8>) -> PResult<HolepunchPayloadView> {
    match parse_uints4(s) {
        Err(e) => Err(e),
        Ok((h, k1)) => match parse_holepunch_payload_tail(s.skip(k1 as int), h.0) {
            Err(e) => Err(e),
            Ok((t, k2)) => Ok((
                HolepunchPayloadView {
                    error: h.1,
                    firewall: h.2,
                    round: h.3,
                    connected: h.0 & 1 != 0,
                    punching: h.0 & 2 != 0,
                    addresses: t.0,
                    remote_address: t.1,
                    token: t.2,
                    remote_token: t.3,
                },
                k1 + k2,
            )),
        },
    }
}

/// Pre-encodes a [`HolepunchPayload`], with one byte planned for each of
/// flags, error, firewall and round.
pub fn preencode_holepunch_payload(state: &mut State, m: &HolepunchPayload)
    requires
        old(state).end + holepunch_payload_plan(m@) <= usize::MAX,
    ensures
        planned(*old(state), *final(state), holepunch_payload_plan(m@)),
{
    state.end = state.end + 4;
    match &m.addresses {
        Some(addrs) => preencode_ipv4_array(state, addrs.as_slice()),
        None => {},
    }
    if m.remote_address.is_some() {
        state.end = state.end + 6;
    }
    if m.token.is_some() {
        state.end = state.end + 32;
    }
    if m.remote_token.is_some() {
        state.end = state.end + 32;
    }
}

fn encode_holepunch_payload_tail(state: &mut State, m: &HolepunchPayload) -> (r: Result<()>)
    requires
        old(state).start + holepunch_payload_tail_size(m@) <= old(state).buffer@.len(),
    ensures
        r is Ok <==> valid_peers(holepunch_payload_hosts(m@)),
        r is Ok ==> wrote(*old(state), *final(state), enc_holepunch_payload_tail(m@)),
        r is Ok ==> enc_holepunch_payload_tail(m@).len() == holepunch_payload_tail_size(m@),
        r matches Err(e) ==> first_bad_host(holepunch_payload_hosts(m@), e),
{
    let ghost mv = m@;
    let ghost ah = opt_list_hosts(mv.addresses);
    let ghost p1 = enc_opt_list4(mv.addresses);
    proof {
        lemma_valid_peers_concat(ah, opt_peers(mv.remote_address));
    }
    let ghost s0 = *state;
    match &m.addresses {
        Some(addrs) => {
            match encode_ipv4_array(state, addrs.as_slice()) {
                Ok(()) => {},
                Err(e) => {
                    proof {
                        lemma_first_bad_host_left(ah, opt_peers(mv.remote_address), e);
                    }
                    return Err(e);
                },
            }
            proof {
                lemma_peers_len(ah);
                lemma_uint_roundtrip(ah.len() as u64, Seq::empty());
            }
        },
        None => {
            proof {
                lemma_wrote_nothing(*state);
            }
        },
    }
    let ghost s1 = *state;
    match encode_opt_peer(state, &m.remote_address) {
        Ok(()) => {},
        Err(e) => {
            proof {
                lemma_first_bad_host_right(ah, opt_peers(mv.remote_address), e);
            }
            return Err(e);
        },
    }
    let ghost s2 = *state;
    proof {
        lemma_single_peer_len(mv.remote_address);
    }
    crate::compact_encoding::encode_opt_fixed32(state, &m.token);
    let ghost s3 = *state;
    crate::compact_encoding::encode_opt_fixed32(state, &m.remote_token);
    proof {
        lemma_wrote_trans(s0, s1, s2, p1, enc_opt_peer(mv.remote_address));
        lemma_wrote_trans(s0, s2, s3, p1 + enc_opt_peer(mv.remote_address), opt_field(mv.token));
        lemma_wrote_trans(s0, s3, *state, p1 + enc_opt_peer(mv.remote_address) + opt_field(mv.token), opt_field(mv.remote_token));
    }
    Ok(())
}

/// Encodes a [`HolepunchPayload`]; the first bad host is refused with its text.
pub fn encode_holepunch_payload(state: &mut State, m: &HolepunchPayload) -> (r: Result<()>)
    requires
        old(state).start + holepunch_payload_size(m@) <= old(state).buffer@.len(),
    ensures
        r is Ok <==> valid_peers(holepunch_payload_hosts(m@)),
        r is Ok ==> wrote(*old(state), *final(state), enc_holepunch_payload(m@)),
        r matches Err(e) ==> first_bad_host(holepunch_payload_hosts(m@), e),
{
    let ghost mv = m@;
    let flags = flag64(m.connected, HP_FLAG_CONNECTED) | flag64(m.punching, HP_FLAG_PUNCHING) | flag64(
        m.addresses.is_some(),
        HP_FLAG_ADDRESSES,
    ) | flag64(m.remote_address.is_some(), HP_FLAG_REMOTE_ADDRESS) | flag64(m.token.is_some(), HP_FLAG_TOKEN) | flag64(
        m.remote_token.is_some(),
        HP_FLAG_REMOTE_TOKEN,
    );
    proof {
        lemma_flag_bits6(
            mv.connected,
            mv.punching,
            mv.addresses is Some,
            mv.remote_address is Some,
            mv.token is Some,
            mv.remote_token is Some,
        );
        lemma_uint_roundtrip(flags, Seq::empty());
        lemma_uint_roundtrip(m.error, Seq::empty());
        lemma_uint_roundtrip(m.firewall, Seq::empty());
        lemma_uint_roundtrip(m.round, Seq::empty());
    }
    let ghost s0 = *state;
    encode_uint(state, flags);
    let ghost s1 = *state;
    encode_uint(state, m.error);
    let ghost s2 = *state;
    encode_uint(state, m.firewall);
    let ghost s3 = *state;
    encode_uint(state, m.round);
    let ghost s4 = *state;
    let ghost h = enc_uint(flags) + enc_uint(mv.error) + enc_uint(mv.firewall) + enc_uint(mv.round);
    proof {
        lemma_wrote_trans(s0, s1, s2, enc_uint(flags), enc_uint(mv.error));
        lemma_wrote_trans(s0, s2, s3, enc_uint(flags) + enc_uint(mv.error), enc_uint(mv.firewall));
        lemma_wrote_trans(s0, s3, s4, enc_uint(flags) + enc_uint(mv.error) + enc_uint(mv.firewall), enc_uint(mv.round));
    }
    encode_holepunch_payload_tail(state, m)?;
    proof {
        lemma_wrote_trans(s0, s4, *state, h, enc_holepunch_payload_tail(mv));
    }
    Ok(())
}

fn decode_peers_opt(state: &mut State, present: bool) -> (r: Result<Option<Vec<Ipv4Peer>>>)
    requires
        old(state).readable(),
    ensures
        read_as(
            *old(state),
            *final(state),
            r,
            parse_opt(peers_parser(), old(state).rest(), present),
            |v: Option<Vec<Ipv4Peer>>|
                match v {
                    Some(x) => Some(peers_view(x@)),
                    None => None,
                },
        ),
        read_within(*old(state), *final(state), r),
{
    if present {
        Ok(Some(decode_peers(state)?))
    } else {
        Ok(None)
    }
}

#[verifier::rlimit(60)]
fn decode_holepunch_payload_tail(state: &mut State, flags: u64) -> (r: Result<
    (Option<Vec<Ipv4Peer>>, Option<Ipv4Peer>, Option<[u8; 32]>, Option<[u8; 32]>),
>)
    requires
        old(state).readable(),
    ensures
        read_as(
            *old(state),
            *final(state),
            r,
            parse_holepunch_payload_tail(old(state).rest(), flags),
            |v: (Option<Vec<Ipv4Peer>>, Option<Ipv4Peer>, Option<[u8; 32]>, Option<[u8; 32]>)|
                (
                    match v.0 {
                        Some(x) => Some(peers_view(x@)),
                        None => None,
                    },
                    opt_peer_view(v.1),
                    crate::compact_encoding::opt_arr32(v.2),
                    crate::compact_encoding::opt_arr32(v.3),
                ),
        ),
{
    let ghost s0 = *state;
    let addresses = decode_peers_opt(state, flags & HP_FLAG_ADDRESSES != 0)?;
    let ghost s1 = *state;
    let ghost k1 = (s1.start - s0.start) as nat;
    proof {
        lemma_rest_skip(s0, s1, k1);
    }
    let remote_address = decode_opt_peer(state, flags & HP_FLAG_REMOTE_ADDRESS != 0)?;
    let ghost s2 = *state;
    let ghost k2 = (s2.start - s1.start) as nat;
    proof {
        lemma_rest_skip(s1, s2, k2);
        lemma_skip_skip(s0.rest(), k1, k2);
    }
    let token = crate::compact_encoding::decode_opt_fixed32(state, flags & HP_FLAG_TOKEN != 0)?;
    let ghost s3 = *state;
    let ghost k3 = (s3.start - s2.start) as nat;
    proof {
        lemma_rest_skip(s2, s3, k3);
        lemma_skip_skip(s0.rest(), k1 + k2, k3);
    }
    let remote_token = crate::compact_encoding::decode_opt_fixed32(state, flags & HP_FLAG_REMOTE_TOKEN != 0)?;
    Ok((addresses, remote_address, token, remote_token))
}

/// Decodes a [`HolepunchPayload`].
pub fn decode_holepunch_payload(state: &mut State) -> (r: Result<HolepunchPayload>)
    requires
        old(state).readable(),
    ensures
        read_as(*old(state), *final(state), r, parse_holepunch_payload(old(state).rest()), |v: HolepunchPayload| v@),
{
    let ghost s0 = *state;
    let flags = decode_uint(state)?;
    let ghost s1 = *state;
    let ghost k1 = (s1.start - s0.start) as nat;
    proof {
        lemma_rest_skip(s0, s1, k1);
    }
    let (error, firewall, round) = decode_noise_head(state)?;
    let ghost s4 = *state;
    let ghost k4 = (s4.start - s1.start) as nat;
    proof {
        lemma_rest_skip(s1, s4, k4);
        lemma_skip_skip(s0.rest(), k1, k4);
    }
    let (addresses, remote_address, token, remote_token) = decode_holepunch_payload_tail(state, flags)?;
    Ok(
        HolepunchPayload {
            error,
            firewall,
            round,
            connected: flags & HP_FLAG_CONNECTED != 0,
            punching: flags & HP_FLAG_PUNCHING != 0,
            addresses,
            remote_address,
            token,
            remote_token,
        },
    )
}

/// Serializes a [`HolepunchPayload`] to a byte vector. The error, firewall
/// and round must each fit the one byte planned for them.
pub fn encode_holepunch_payload_to_bytes(m: &HolepunchPayload) -> (r: Result<Vec<u8>>)
    requires
        m.error <= 0xfc,
        m.firewall <= 0xfc,
        m.round <= 0xfc,
        holepunch_payload_plan(m@) <= usize::MAX,
    ensures
        r is Ok <==> valid_peers(holepunch_payload_hosts(m@)),
        r matches Ok(b) ==> b@ == enc_holepunch_payload(m@),
        r matches Err(e) ==> first_bad_host(holepunch_payload_hosts(m@), e),
{
    let mut state = State::new();
    preencode_holepunch_payload(&mut state, m);
    state.allocate();
    encode_holepunch_payload(&mut state, m)?;
    proof {
        lemma_holepunch_payload_len(m@);
        assert(state.buffer@ =~= enc_holepunch_payload(m@));
    }
    Ok(state.buffer)
}

/// Deserializes a [`HolepunchPayload`] from the start of a byte slice.
pub fn decode_holepunch_payload_from_bytes(buf: &[u8]) -> (r: Result<HolepunchPayload>)
    ensures
        decoded_as(r, parse_holepunch_payload(buf@), |v: HolepunchPayload| v@),
{
    let mut state = State::from_buffer(buf);
    proof {
        assert(state.rest() =~= buf@);
    }
    decode_holepunch_payload(&mut state)
}

proof fn lemma_holepunch_payload_len(m: HolepunchPayloadView)
    requires
        valid_peers(holepunch_payload_hosts(m)),
        m.error <= 0xfc,
        m.firewall <= 0xfc,
        m.round <= 0xfc,
        holepunch_payload_plan(m) <= usize::MAX,
    ensures
        enc_holepunch_payload(m).len() == holepunch_payload_plan(m),
{
    lemma_flag_bits6(m.connected, m.punching, m.addresses is Some, m.remote_address is Some, m.token is Some, m.remote_token is Some);
    lemma_uint_roundtrip(holepunch_payload_flags(m), Seq::empty());
    lemma_uint_roundtrip(m.error, Seq::empty());
    lemma_uint_roundtrip(m.firewall, Seq::empty());
    lemma_uint_roundtrip(m.round, Seq::empty());
    let ah = opt_list_hosts(m.addresses);
    lemma_valid_peers_concat(ah, opt_peers(m.remote_address));
    if let Some(a) = m.addresses {
        lemma_peers_len(a);
        lemma_uint_roundtrip(a.len() as u64, Seq::empty());
    }
    lemma_opt_peer_roundtrip(m.remote_address, Seq::empty());
}

// ── Laws of the Noise and hole-punch payloads ───────────────────────────────

/// Whether a Noise payload reads back: version 1 with version-1 parts, valid
/// hosts, fixed fields of their lengths, and lists a decoder accepts.
pub open spec fn noise_roundtrips(m: NoisePayloadView) -> bool {
    &&& m.version == 1
    &&& noise_wf(m)
    &&& valid_peers(noise_hosts(m))
    &&& m.holepunch matches Some(h) ==> h.1.len() <= 0x100000
    &&& m.addresses4.len() <= 0x100000
    &&& m.addresses6.len() <= 0x100000
    &&& m.udx matches Some(u) ==> u.version == 1
    &&& m.secret_stream matches Some(v) ==> v == 1
    &&& m.relay_through matches Some(r) ==> r.0 == 1
    &&& m.relay_addresses matches Some(r) ==> r.len() <= 0x100000
}

/// A Noise payload as it reads back: canonical host texts.
pub open spec fn canon_noise_payload(m: NoisePayloadView) -> NoisePayloadView {
    NoisePayloadView {
        holepunch: canon_hp(m.holepunch),
        addresses4: m.addresses4.map_values(canon_peer_fn()),
        relay_addresses: match m.relay_addresses {
            Some(r) => Some(r.map_values(canon_peer_fn())),
            None => None,
        },
        ..m
    }
}

proof fn lemma_ipv6_list_roundtrip(a6: Seq<(Seq<u8>, u16)>, rest: Seq<u8>)
    requires
        forall|i: int| 0 <= i < a6.len() ==> (#[trigger] a6[i]).0.len() == 16,
        a6.len() <= 0x100000,
    ensures
        parse_ipv6_list(
            (if a6.len() > 0 {
                enc_array(ipv6_item(), a6)
            } else {
                Seq::empty()
            }) + rest,
            a6.len() > 0,
        ) == Ok::<(Seq<(Seq<u8>, u16)>, nat), EncodingError>((
            a6,
            (if a6.len() > 0 {
                enc_array(ipv6_item(), a6)
            } else {
                Seq::<u8>::empty()
            }).len(),
        )),
{
    if a6.len() > 0 {
        assert forall|i: int, r: Seq<u8>| 0 <= i < a6.len() implies #[trigger] ipv6_parser()(ipv6_item()(a6[i]) + r)
            == Ok::<((Seq<u8>, u16), nat), EncodingError>(((|p: (Seq<u8>, u16)| p)(a6[i]), ipv6_item()(a6[i]).len())) by {
            lemma_ipv6_peer_roundtrip(a6[i], r);
        }
        crate::compact_encoding::lemma_array_roundtrip(ipv6_parser(), ipv6_item(), |p: (Seq<u8>, u16)| p, a6, rest);
        assert(a6.map_values(|p: (Seq<u8>, u16)| p) =~= a6);
    } else {
        assert(a6 =~= Seq::<(Seq<u8>, u16)>::empty());
    }
}

/// Hole-punch info as it reads back: canonical host texts.
pub open spec fn canon_hp(hp: Option<HolepunchInfoView>) -> Option<HolepunchInfoView> {
    match hp {
        Some(h) => Some((h.0, h.1.map_values(canon_relay_fn()))),
        None => None,
    }
}

proof fn lemma_opt_hp_roundtrip(hp: Option<HolepunchInfoView>, rest: Seq<u8>)
    requires
        valid_peers(hp_hosts(hp)),
        hp matches Some(h) ==> h.1.len() <= 0x100000,
    ensures
        parse_opt(holepunch_info_parser(), enc_opt_hp(hp) + rest, hp is Some) == Ok::<(Option<HolepunchInfoView>, nat), EncodingError>((
            canon_hp(hp),
            enc_opt_hp(hp).len(),
        )),
{
    if let Some(h) = hp {
        lemma_holepunch_info_roundtrip(h, rest);
    }
}

proof fn lemma_list4_roundtrip(a4: Seq<(Seq<char>, u16)>, rest: Seq<u8>)
    requires
        valid_peers(a4),
        a4.len() <= 0x100000,
    ensures
        crate::messages::parse_closer(enc_list4(a4) + rest, a4.len() > 0) == Ok::<(Seq<(Seq<char>, u16)>, nat), EncodingError>((
            a4.map_values(canon_peer_fn()),
            enc_list4(a4).len(),
        )),
{
    if a4.len() > 0 {
        lemma_peers_roundtrip(a4, rest);
    } else {
        assert(a4.map_values(canon_peer_fn()) =~= Seq::<(Seq<char>, u16)>::empty());
    }
}

#[verifier::spinoff_prover]
proof fn lemma_noise_a_roundtrip(
    hp: Option<HolepunchInfoView>,
    a4: Seq<(Seq<char>, u16)>,
    a6: Seq<(Seq<u8>, u16)>,
    f: u64,
    rest: Seq<u8>,
)
    requires
        (f & 1 != 0) == hp is Some,
        (f & 2 != 0) == (a4.len() > 0),
        (f & 4 != 0) == (a6.len() > 0),
        valid_peers(hp_hosts(hp) + a4),
        hp matches Some(h) ==> h.1.len() <= 0x100000,
        a4.len() <= 0x100000,
        a6.len() <= 0x100000,
        forall|i: int| 0 <= i < a6.len() ==> (#[trigger] a6[i]).0.len() == 16,
    ensures
        parse_noise_a(enc_opt_hp(hp) + enc_list4(a4) + enc_list6(a6) + rest, f) == Ok::<
            ((Option<HolepunchInfoView>, Seq<(Seq<char>, u16)>, Seq<(Seq<u8>, u16)>), nat),
            EncodingError,
        >(((canon_hp(hp), a4.map_values(canon_peer_fn()), a6), (enc_opt_hp(hp) + enc_list4(a4) + enc_list6(a6)).len())),
{
    lemma_valid_peers_concat(hp_hosts(hp), a4);
    let p1 = enc_opt_hp(hp);
    let p2 = enc_list4(a4);
    let p3 = enc_list6(a6);
    lemma_opt_hp_roundtrip(hp, p2 + (p3 + rest));
    lemma_list4_roundtrip(a4, p3 + rest);
    lemma_ipv6_list_roundtrip(a6, rest);
    lemma_noise_a_compose(p1, p2, p3, rest, f, canon_hp(hp), a4.map_values(canon_peer_fn()), a6);
}

proof fn lemma_noise_a_compose(
    p1: Seq<u8>,
    p2: Seq<u8>,
    p3: Seq<u8>,
    rest: Seq<u8>,
    f: u64,
    v1: Option<HolepunchInfoView>,
    v2: Seq<(Seq<char>, u16)>,
    v3: Seq<(Seq<u8>, u16)>,
)
    requires
        parse_opt(holepunch_info_parser(), p1 + (p2 + (p3 + rest)), f & 1 != 0) == Ok::<(Option<HolepunchInfoView>, nat), EncodingError>((v1, p1.len())),
        crate::messages::parse_closer(p2 + (p3 + rest), f & 2 != 0) == Ok::<(Seq<(Seq<char>, u16)>, nat), EncodingError>((v2, p2.len())),
        parse_ipv6_list(p3 + rest, f & 4 != 0) == Ok::<(Seq<(Seq<u8>, u16)>, nat), EncodingError>((v3, p3.len())),
    ensures
        parse_noise_a(p1 + p2 + p3 + rest, f) == Ok::<
            ((Option<HolepunchInfoView>, Seq<(Seq<char>, u16)>, Seq<(Seq<u8>, u16)>), nat),
            EncodingError,
        >(((v1, v2, v3), (p1 + p2 + p3).len())),
{
    let t0 = p1 + (p2 + (p3 + rest));
    lemma_assoc3(p1, p2, p3, rest);
    lemma_skip_append(p1, p2 + (p3 + rest));
    lemma_skip_append(p2, p3 + rest);
    lemma_skip_skip(t0, p1.len(), p2.len());
}

#[verifier::spinoff_prover]
proof fn lemma_noise_b_roundtrip(
    udx: Option<UdxInfo>,
    ss: Option<u64>,
    rt: Option<RelayThroughView>,
    ra: Option<Seq<(Seq<char>, u16)>>,
    f: u64,
    rest: Seq<u8>,
)
    requires
        (f & 8 != 0) == udx is Some,
        (f & 16 != 0) == ss is Some,
        (f & 32 != 0) == rt is Some,
        (f & 64 != 0) == ra is Some,
        udx matches Some(u) ==> u.version == 1,
        ss matches Some(v) ==> v == 1,
        rt matches Some(r) ==> r.0 == 1 && r.1.len() == 32 && r.2.len() == 32,
        ra matches Some(r) ==> r.len() <= 0x100000,
        valid_peers(opt_list_hosts(ra)),
    ensures
        parse_noise_b(enc_opt_udx(udx) + enc_opt_ss(ss) + enc_opt_rt(rt) + enc_opt_list4(ra) + rest, f) == Ok::<
            ((Option<UdxInfo>, Option<u64>, Option<RelayThroughView>, Option<Seq<(Seq<char>, u16)>>), nat),
            EncodingError,
        >((
            (
                udx,
                ss,
                rt,
                match ra {
                    Some(r) => Some(r.map_values(canon_peer_fn())),
                    None => None,
                },
            ),
            (enc_opt_udx(udx) + enc_opt_ss(ss) + enc_opt_rt(rt) + enc_opt_list4(ra)).len(),
        )),
{
    let p1 = enc_opt_udx(udx);
    let p2 = enc_opt_ss(ss);
    let p3 = enc_opt_rt(rt);
    let p4 = enc_opt_list4(ra);
    if let Some(u) = udx {
        lemma_udx_info_roundtrip(u, p2 + (p3 + (p4 + rest)));
    }
    lemma_uint_roundtrip(1, p3 + (p4 + rest));
    if let Some(r) = rt {
        lemma_relay_through_info_roundtrip(r, p4 + rest);
    }
    if let Some(r) = ra {
        lemma_peers_roundtrip(r, rest);
    }
    let cra = match ra {
        Some(r) => Some(r.map_values(canon_peer_fn())),
        None => None,
    };
    assert(parse_opt(udx_info_parser(), p1 + (p2 + (p3 + (p4 + rest))), f & 8 != 0) == Ok::<(Option<UdxInfo>, nat), EncodingError>((udx, p1.len())));
    assert(parse_opt(uint_parser(), p2 + (p3 + (p4 + rest)), f & 16 != 0) == Ok::<(Option<u64>, nat), EncodingError>((ss, p2.len())));
    assert(parse_opt(relay_through_parser(), p3 + (p4 + rest), f & 32 != 0) == Ok::<(Option<RelayThroughView>, nat), EncodingError>((rt, p3.len())));
    assert(parse_opt(peers_parser(), p4 + rest, f & 64 != 0) == Ok::<(Option<Seq<(Seq<char>, u16)>>, nat), EncodingError>((cra, p4.len())));
    lemma_noise_b_compose(p1, p2, p3, p4, rest, f, udx, ss, rt, cra);
}

proof fn lemma_noise_b_compose(
    p1: Seq<u8>,
    p2: Seq<u8>,
    p3: Seq<u8>,
    p4: Seq<u8>,
    rest: Seq<u8>,
    f: u64,
    v1: Option<UdxInfo>,
    v2: Option<u64>,
    v3: Option<RelayThroughView>,
    v4: Option<Seq<(Seq<char>, u16)>>,
)
    requires
        parse_opt(udx_info_parser(), p1 + (p2 + (p3 + (p4 + rest))), f & 8 != 0) == Ok::<(Option<UdxInfo>, nat), EncodingError>((v1, p1.len())),
        parse_opt(uint_parser(), p2 + (p3 + (p4 + rest)), f & 16 != 0) == Ok::<(Option<u64>, nat), EncodingError>((v2, p2.len())),
        parse_opt(relay_through_parser(), p3 + (p4 + rest), f & 32 != 0) == Ok::<(Option<RelayThroughView>, nat), EncodingError>((v3, p3.len())),
        parse_opt(peers_parser(), p4 + rest, f & 64 != 0) == Ok::<(Option<Seq<(Seq<char>, u16)>>, nat), EncodingError>((v4, p4.len())),
    ensures
        parse_noise_b(p1 + p2 + p3 + p4 + rest, f) == Ok::<
            ((Option<UdxInfo>, Option<u64>, Option<RelayThroughView>, Option<Seq<(Seq<char>, u16)>>), nat),
            EncodingError,
        >(((v1, v2, v3, v4), (p1 + p2 + p3 + p4).len())),
{
    let t0 = p1 + (p2 + (p3 + (p4 + rest)));
    lemma_assoc4(p1, p2, p3, p4, rest);
    lemma_skip_append(p1, p2 + (p3 + (p4 + rest)));
    lemma_skip_append(p2, p3 + (p4 + rest));
    lemma_skip_skip(t0, p1.len(), p2.len());
    lemma_skip_append(p3, p4 + rest);
    lemma_skip_skip(t0, p1.len() + p2.len(), p3.len());
}

proof fn lemma_noise_compose(
    a: Seq<u8>,
    h: Seq<u8>,
    e: Seq<u8>,
    g: Seq<u8>,
    rest: Seq<u8>,
    vh: (u64, u64, u64),
    va: (Option<HolepunchInfoView>, Seq<(Seq<char>, u16)>, Seq<(Seq<u8>, u16)>),
    vb: (Option<UdxInfo>, Option<u64>, Option<RelayThroughView>, Option<Seq<(Seq<char>, u16)>>),
)
    requires
        parse_uint(a + (h + (e + (g + rest)))) == Ok::<(u64, nat), EncodingError>((1, a.len())),
        parse_noise_head(h + (e + (g + rest))) == Ok::<((u64, u64, u64), nat), EncodingError>((vh, h.len())),
        parse_noise_a(e + (g + rest), vh.0) == Ok::<
            ((Option<HolepunchInfoView>, Seq<(Seq<char>, u16)>, Seq<(Seq<u8>, u16)>), nat),
            EncodingError,
        >((va, e.len())),
        parse_noise_b(g + rest, vh.0) == Ok::<
            ((Option<UdxInfo>, Option<u64>, Option<RelayThroughView>, Option<Seq<(Seq<char>, u16)>>), nat),
            EncodingError,
        >((vb, g.len())),
    ensures
        parse_noise_payload(a + h + e + g + rest) == Ok::<(NoisePayloadView, nat), EncodingError>((
            NoisePayloadView {
                version: 1,
                error: vh.1,
                firewall: vh.2,
                holepunch: va.0,
                addresses4: va.1,
                addresses6: va.2,
                udx: vb.0,
                secret_stream: vb.1,
                relay_through: vb.2,
                relay_addresses: vb.3,
            },
            (a + h + e + g).len(),
        )),
{
    let t0 = a + (h + (e + (g + rest)));
    lemma_assoc4(a, h, e, g, rest);
    lemma_skip_append(a, h + (e + (g + rest)));
    lemma_skip_append(h, e + (g + rest));
    lemma_skip_skip(t0, a.len(), h.len());
    lemma_skip_append(e, g + rest);
    lemma_skip_skip(t0, a.len() + h.len(), e.len());
}

proof fn lemma_noise_head_roundtrip(f: u64, error: u64, firewall: u64, rest: Seq<u8>)
    ensures
        parse_noise_head(enc_noise_head(f, error, firewall) + rest) == Ok::<((u64, u64, u64), nat), EncodingError>((
            (f, error, firewall),
            enc_noise_head(f, error, firewall).len(),
        )),
{
    let b = enc_uint(f);
    let c = enc_uint(error);
    let d = enc_uint(firewall);
    let h = b + (c + (d + rest));
    lemma_assoc3(b, c, d, rest);
    lemma_uint_roundtrip(f, c + (d + rest));
    lemma_skip_append(b, c + (d + rest));
    lemma_uint_roundtrip(error, d + rest);
    lemma_skip_append(c, d + rest);
    lemma_skip_skip(h, b.len(), c.len());
    lemma_uint_roundtrip(firewall, rest);
}

/// A Noise payload of version 1 with valid hosts reads back with canonical
/// host texts.
pub proof fn lemma_noise_payload_roundtrip(m: NoisePayloadView, rest: Seq<u8>)
    requires
        noise_roundtrips(m),
    ensures
        parse_noise_payload(enc_noise_payload(m) + rest) == Ok::<(NoisePayloadView, nat), EncodingError>((
            canon_noise_payload(m),
            enc_noise_payload(m).len(),
        )),
{
    let f = noise_flags(m);
    lemma_flag_bits7(
        m.holepunch is Some,
        m.addresses4.len() > 0,
        m.addresses6.len() > 0,
        m.udx is Some,
        m.secret_stream is Some,
        m.relay_through is Some,
        m.relay_addresses is Some,
    );
    assert(noise_hosts(m) == noise_hosts_a(m) + noise_hosts_b(m));
    lemma_valid_peers_concat(noise_hosts_a(m), noise_hosts_b(m));
    let a = enc_uint(1);
    let h = enc_noise_head(f, m.error, m.firewall);
    let e = enc_noise_a(m);
    let g = enc_noise_b(m);
    lemma_uint_roundtrip(1, h + (e + (g + rest)));
    lemma_noise_head_roundtrip(f, m.error, m.firewall, e + (g + rest));
    lemma_noise_a_roundtrip(m.holepunch, m.addresses4, m.addresses6, f, g + rest);
    lemma_noise_b_roundtrip(m.udx, m.secret_stream, m.relay_through, m.relay_addresses, f, rest);
    lemma_noise_compose(
        a,
        h,
        e,
        g,
        rest,
        (f, m.error, m.firewall),
        (canon_hp(m.holepunch), m.addresses4.map_values(canon_peer_fn()), m.addresses6),
        (m.udx, m.secret_stream, m.relay_through, canon_noise_payload(m).relay_addresses),
    );
}

/// Whether a hole-punch payload reads back: valid hosts, tokens of 32 bytes
/// and an address list a decoder accepts.
pub open spec fn holepunch_payload_roundtrips(m: HolepunchPayloadView) -> bool {
    &&& valid_peers(holepunch_payload_hosts(m))
    &&& m.addresses matches Some(a) ==> a.len() <= 0x100000
    &&& m.token matches Some(x) ==> x.len() == 32
    &&& m.remote_token matches Some(x) ==> x.len() == 32
}

/// A hole-punch payload as it reads back: canonical host texts.
pub open spec fn canon_holepunch_payload(m: HolepunchPayloadView) -> HolepunchPayloadView {
    HolepunchPayloadView {
        addresses: match m.addresses {
            Some(a) => Some(a.map_values(canon_peer_fn())),
            None => None,
        },
        remote_address: match m.remote_address {
            Some(p) => Some(crate::compact_encoding::canon_peer(p)),
            None => None,
        },
        ..m
    }
}

#[verifier::spinoff_prover]
#[verifier::rlimit(60)]
proof fn lemma_holepunch_payload_tail_roundtrip(m: HolepunchPayloadView, rest: Seq<u8>)
    requires
        holepunch_payload_roundtrips(m),
    ensures
        parse_holepunch_payload_tail(enc_holepunch_payload_tail(m) + rest, holepunch_payload_flags(m)) matches Ok((t, k))
            && k == enc_holepunch_payload_tail(m).len() && t == (
            canon_holepunch_payload(m).addresses,
            canon_holepunch_payload(m).remote_address,
            m.token,
            m.remote_token,
        ),
{
    let f = holepunch_payload_flags(m);
    lemma_flag_bits6(m.connected, m.punching, m.addresses is Some, m.remote_address is Some, m.token is Some, m.remote_token is Some);
    let ah = opt_list_hosts(m.addresses);
    lemma_valid_peers_concat(ah, opt_peers(m.remote_address));
    let p1 = enc_opt_list4(m.addresses);
    let p2 = enc_opt_peer(m.remote_address);
    let p3 = opt_field(m.token);
    let p4 = opt_field(m.remote_token);
    let t0 = p1 + (p2 + (p3 + (p4 + rest)));
    lemma_assoc4(p1, p2, p3, p4, rest);
    if let Some(a) = m.addresses {
        lemma_peers_roundtrip(a, p2 + (p3 + (p4 + rest)));
    }
    lemma_skip_append(p1, p2 + (p3 + (p4 + rest)));
    lemma_opt_peer_roundtrip(m.remote_address, p3 + (p4 + rest));
    lemma_skip_append(p2, p3 + (p4 + rest));
    lemma_skip_skip(t0, p1.len(), p2.len());
    lemma_opt_fixed_roundtrip(m.token, 32, p4 + rest);
    lemma_skip_append(p3, p4 + rest);
    lemma_skip_skip(t0, p1.len() + p2.len(), p3.len());
    lemma_opt_fixed_roundtrip(m.remote_token, 32, rest);
    assert(parse_opt(peers_parser(), t0, f & 4 != 0) == Ok::<(Option<Seq<(Seq<char>, u16)>>, nat), EncodingError>((
        canon_holepunch_payload(m).addresses,
        p1.len(),
    )));
    assert(t0.skip(p1.len() as int) == p2 + (p3 + (p4 + rest)));
    assert(t0.skip((p1.len() + p2.len()) as int) == p3 + (p4 + rest));
    assert(t0.skip((p1.len() + p2.len() + p3.len()) as int) == p4 + rest);
}

/// A hole-punch payload with valid hosts reads back with canonical host texts.
pub proof fn lemma_holepunch_payload_roundtrip(m: HolepunchPayloadView, rest: Seq<u8>)
    requires
        holepunch_payload_roundtrips(m),
    ensures
        parse_holepunch_payload(enc_holepunch_payload(m) + rest) == Ok::<(HolepunchPayloadView, nat), EncodingError>((
            canon_holepunch_payload(m),
            enc_holepunch_payload(m).len(),
        )),
{
    let f = holepunch_payload_flags(m);
    lemma_flag_bits6(m.connected, m.punching, m.addresses is Some, m.remote_address is Some, m.token is Some, m.remote_token is Some);
    let a = enc_uint(f);
    let b = enc_uint(m.error);
    let c = enc_uint(m.firewall);
    let d = enc_uint(m.round);
    let e = enc_holepunch_payload_tail(m);
    lemma_assoc5(a, b, c, d, e, rest);
    let t0 = a + (b + (c + (d + (e + rest))));
    let h = b + (c + (d + (e + rest)));
    lemma_uint_roundtrip(f, h);
    lemma_skip_append(a, h);
    lemma_uint_roundtrip(m.error, c + (d + (e + rest)));
    lemma_skip_append(b, c + (d + (e + rest)));
    lemma_uint_roundtrip(m.firewall, d + (e + rest));
    lemma_skip_append(c, d + (e + rest));
    lemma_skip_skip(h, b.len(), c.len());
    lemma_uint_roundtrip(m.round, e + rest);
    lemma_skip_append(d, e + rest);
    lemma_skip_skip(h, b.len() + c.len(), d.len());
    assert(parse_noise_head(h) == Ok::<((u64, u64, u64), nat), EncodingError>(((m.error, m.firewall, m.round), b.len() + c.len() + d.len())));
    assert(parse_uints4(t0) == Ok::<((u64, u64, u64, u64), nat), EncodingError>(((f, m.error, m.firewall, m.round), a.len() + b.len() + c.len() + d.len())));
    lemma_skip_skip(t0, a.len(), b.len() + c.len() + d.len());
    lemma_holepunch_payload_tail_roundtrip(m, rest);
}

} // verus!
