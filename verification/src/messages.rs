//! DHT RPC wire messages: requests and responses.
//!
//! A message starts with a type byte (low nibble: version 3; high nibble: 0 for
//! a request, 1 for a response), then a flags byte telling which optional fields
//! follow, the transaction id, the destination peer and the fields themselves.
use vstd::prelude::*;
use crate::compact_encoding::{
    buffer_parser, buffer_size, decode_buffer, decode_fixed32, decode_ipv4, decode_opt_fixed32, decode_uint,
    decode_opt_buffer, decode_uint16, decode_uint8, decode_uint_or_zero, enc_array, enc_buffer, enc_ipv4_address, enc_many, enc_peer, enc_uint,
    encode_buffer, encode_fixed32, encode_ipv4, encode_opt_fixed32, encode_uint, encode_uint16, encode_uint8,
    first_bad_host, fixed32_parser, is_invalid_ipv4, le_bytes, lemma_buffer_roundtrip, lemma_enc_many_step,
    lemma_fixed_roundtrip, lemma_ipv4_address_roundtrip, lemma_le_bytes_len, lemma_le_value_of_bytes, lemma_le_value_one, pow256, canon_peer, canon_peer_fn, lemma_parse_many_err, lemma_peers_len, lemma_peers_roundtrip, lemma_rest_skip, lemma_uint_roundtrip, lemma_wrote_nothing,
    lemma_wrote_trans, opt_arr32, opt_field, opt_vec, parse_array, parse_ipv4_address, parse_le, parse_many,
    parse_opt, parse_uint, peer_item, peer_parser, preencode_buffer, preencode_uint, read_as, uint_parser,
    uint_size, valid_host, valid_peers, wrote, planned, EncodingError, PResult, Result, State, MAX_ARRAY_LENGTH,
};
use crate::peer::NodeId;
use crate::text::{ipv4_written, lemma_leading_parsed_len, parse_ipv4_text, split_dots};

verus! {

/// DHT RPC command kinds; `as u64` gives the wire code of each.
#[derive(Debug, Clone, Copy, PartialEq, Eq, Structural)]
pub enum Command {
    /// Pings a peer.
    Ping,
    /// Pings a peer over NAT.
    PingNat,
    /// Finds the closest nodes to a target.
    FindNode,
    /// Reports a down-hint for a peer.
    DownHint,
    /// Sends a delayed ping.
    DelayedPing,
}

/// The command with wire code `v`, if there is one.
pub open spec fn command_of(v: u64) -> Option<Command> {
    if v == 0 {
        Some(Command::Ping)
    } else if v == 1 {
        Some(Command::PingNat)
    } else if v == 2 {
        Some(Command::FindNode)
    } else if v == 3 {
        Some(Command::DownHint)
    } else if v == 4 {
        Some(Command::DelayedPing)
    } else {
        None
    }
}

impl Command {
    /// The wire code of the command.
    pub open spec fn wire_code(self) -> u64 {
        match self {
            Command::Ping => 0,
            Command::PingNat => 1,
            Command::FindNode => 2,
            Command::DownHint => 3,
            Command::DelayedPing => 4,
        }
    }

    /// The wire code of the command.
    pub fn code(self) -> (c: u64)
        ensures
            c == self.wire_code(),
    {
        match self {
            Command::Ping => 0,
            Command::PingNat => 1,
            Command::FindNode => 2,
            Command::DownHint => 3,
            Command::DelayedPing => 4,
        }
    }

    /// Converts a numeric code into a [`Command`].
    pub fn from_u64(v: u64) -> (r: Option<Self>)
        ensures
            r == command_of(v),
    {
        match v {
            0 => Some(Command::Ping),
            1 => Some(Command::PingNat),
            2 => Some(Command::FindNode),
            3 => Some(Command::DownHint),
            4 => Some(Command::DelayedPing),
            _ => None,
        }
    }
}

/// Every command's code converts back to that command, and only the codes of
/// commands convert to one.
pub proof fn lemma_command_code_roundtrip(c: Command, v: u64)
    ensures
        command_of(c.wire_code()) == Some(c),
        command_of(v) is Some <==> v < 5,
        command_of(v) matches Some(d) ==> d.wire_code() == v,
{
}

const VERSION: u8 = 0x03;

/// The type byte of a request.
pub const REQUEST_ID: u8 = 0x03;

/// The type byte of a response.
pub const RESPONSE_ID: u8 = 0x13;

const FLAG_ID: u8 = 0x01;
const FLAG_TOKEN: u8 = 0x02;
const FLAG_INTERNAL_OR_CLOSER: u8 = 0x04;
const FLAG_TARGET_OR_ERROR: u8 = 0x08;
const FLAG_VALUE: u8 = 0x10;

/// An IPv4 peer address.
#[derive(Debug, Clone, PartialEq, Eq)]
pub struct Ipv4Peer {
    /// The peer host.
    pub host: String,
    /// The peer port.
    pub port: u16,
}

impl View for Ipv4Peer {
    type V = (Seq<char>, u16);

    open spec fn view(&self) -> (Seq<char>, u16) {
        (self.host@, self.port)
    }
}

/// A DHT request message.
#[derive(Debug, Clone)]
pub struct Request {
    /// The transaction identifier.
    pub tid: u16,
    /// The destination peer.
    pub to: Ipv4Peer,
    /// The optional sender id.
    pub id: Option<NodeId>,
    /// The optional request token.
    pub token: Option<[u8; 32]>,
    /// Whether the request is internal.
    pub internal: bool,
    /// The numeric command code.
    pub command: u64,
    /// The optional target node id.
    pub target: Option<NodeId>,
    /// The optional payload value.
    pub value: Option<Vec<u8>>,
}

/// A DHT response message.
#[derive(Debug, Clone)]
pub struct Response {
    /// The transaction identifier.
    pub tid: u16,
    /// The destination peer.
    pub to: Ipv4Peer,
    /// The optional sender id.
    pub id: Option<NodeId>,
    /// The optional response token.
    pub token: Option<[u8; 32]>,
    /// The closer peers returned by the lookup.
    pub closer_nodes: Vec<Ipv4Peer>,
    /// The response error code.
    pub error: u64,
    /// The optional payload value.
    pub value: Option<Vec<u8>>,
}

/// A decoded DHT wire message.
#[derive(Debug, Clone)]
pub enum Message {
    /// A request message.
    Request(Request),
    /// A response message.
    Response(Response),
}

/// A request as plain values.
pub struct RequestView {
    pub tid: u16,
    pub to: (Seq<char>, u16),
    pub id: Option<Seq<u8>>,
    pub token: Option<Seq<u8>>,
    pub internal: bool,
    pub command: u64,
    pub target: Option<Seq<u8>>,
    pub value: Option<Seq<u8>>,
}

/// A response as plain values.
pub struct ResponseView {
    pub tid: u16,
    pub to: (Seq<char>, u16),
    pub id: Option<Seq<u8>>,
    pub token: Option<Seq<u8>>,
    pub closer_nodes: Seq<(Seq<char>, u16)>,
    pub error: u64,
    pub value: Option<Seq<u8>>,
}

/// A message as plain values.
pub enum MessageView {
    Request(RequestView),
    Response(ResponseView),
}

/// The plain values of a list of peers.
pub open spec fn peers_view(peers: Seq<Ipv4Peer>) -> Seq<(Seq<char>, u16)> {
    peers.map_values(|p: Ipv4Peer| p@)
}

impl View for Request {
    type V = RequestView;

    open spec fn view(&self) -> RequestView {
        RequestView {
            tid: self.tid,
            to: self.to@,
            id: opt_arr32(self.id),
            token: opt_arr32(self.token),
            internal: self.internal,
            command: self.command,
            target: opt_arr32(self.target),
            value: opt_vec(self.value),
        }
    }
}

impl View for Response {
    type V = ResponseView;

    open spec fn view(&self) -> ResponseView {
        ResponseView {
            tid: self.tid,
            to: self.to@,
            id: opt_arr32(self.id),
            token: opt_arr32(self.token),
            closer_nodes: peers_view(self.closer_nodes@),
            error: self.error,
            value: opt_vec(self.value),
        }
    }
}

impl View for Message {
    type V = MessageView;

    open spec fn view(&self) -> MessageView {
        match self {
            Message::Request(r) => MessageView::Request(r@),
            Message::Response(r) => MessageView::Response(r@),
        }
    }
}

// ── Peers and peer lists ────────────────────────────────────────────────────

/// Pre-encodes an IPv4 peer: four address bytes and a port.
pub fn preencode_ipv4_peer(state: &mut State, _peer: &Ipv4Peer)
    requires
        old(state).end + 6 <= usize::MAX,
    ensures
        planned(*old(state), *final(state), 6),
{
    state.end = state.end + 6;
}

/// Encodes an IPv4 peer; bad host text is refused with the text in the error.
pub fn encode_ipv4_peer(state: &mut State, peer: &Ipv4Peer) -> (r: Result<()>)
    requires
        old(state).start + 6 <= old(state).buffer@.len(),
    ensures
        r is Ok <==> valid_host(peer.host@),
        r is Ok ==> wrote(*old(state), *final(state), enc_peer(peer@)),
        r is Err ==> wrote(*old(state), *final(state), ipv4_written(peer.host@)),
        r matches Err(e) ==> is_invalid_ipv4(e, peer.host@),
{
    let ghost s0 = *state;
    proof {
        lemma_leading_parsed_len(split_dots(peer.host@));
    }
    encode_ipv4(state, &peer.host)?;
    let ghost s1 = *state;
    encode_uint16(state, peer.port);
    proof {
        lemma_le_bytes_len(peer.port as nat, 2);
        lemma_wrote_trans(s0, s1, *state, ipv4_written(peer.host@), le_bytes(peer.port as nat, 2));
    }
    Ok(())
}

/// Decodes an IPv4 peer.
pub fn decode_ipv4_peer(state: &mut State) -> (r: Result<Ipv4Peer>)
    requires
        old(state).readable(),
    ensures
        read_as(*old(state), *final(state), r, parse_ipv4_address(old(state).rest()), |v: Ipv4Peer| v@),
{
    let ghost s0 = *state;
    let host = decode_ipv4(state)?;
    proof {
        lemma_rest_skip(s0, *state, 4);
    }
    let port = decode_uint16(state)?;
    Ok(Ipv4Peer { host, port })
}

/// The size of a peer list: its length as a compact uint and six bytes a peer.
pub open spec fn peers_size(n: nat) -> nat {
    uint_size(n as u64) + 6 * n
}

/// Pre-encodes a peer list.
pub fn preencode_ipv4_array(state: &mut State, peers: &[Ipv4Peer])
    requires
        old(state).end + peers_size(peers@.len()) <= usize::MAX,
    ensures
        planned(*old(state), *final(state), peers_size(peers@.len())),
{
    preencode_uint(state, peers.len() as u64);
    state.end = state.end + peers.len() * 6;
}

/// Encodes a peer list. The first bad host text is refused with the text in
/// the error.
pub fn encode_ipv4_array(state: &mut State, peers: &[Ipv4Peer]) -> (r: Result<()>)
    requires
        old(state).start + peers_size(peers@.len()) <= old(state).buffer@.len(),
    ensures
        r is Ok <==> valid_peers(peers_view(peers@)),
        r is Ok ==> wrote(*old(state), *final(state), enc_array(peer_item(), peers_view(peers@))),
        r matches Err(e) ==> first_bad_host(peers_view(peers@), e),
        final(state).end == old(state).end,
        final(state).buffer@.len() == old(state).buffer@.len(),
{
    let ghost s0 = *state;
    let ghost ps = peers_view(peers@);
    encode_uint(state, peers.len() as u64);
    let ghost s1 = *state;
    proof {
        lemma_wrote_nothing(s1);
        lemma_uint_roundtrip(peers@.len() as u64, Seq::empty());
    }
    let mut i: usize = 0;
    while i < peers.len()
        invariant
            i <= peers@.len(),
            ps == peers_view(peers@),
            s0 == *old(state),
            s1.start == s0.start + uint_size(peers@.len() as u64),
            wrote(s0, s1, enc_uint(peers@.len() as u64)),
            s0.start + peers_size(peers@.len()) <= s0.buffer@.len(),
            valid_peers(ps.take(i as int)),
            enc_many(peer_item(), ps.take(i as int)).len() == 6 * i,
            wrote(s1, *state, enc_many(peer_item(), ps.take(i as int))),
            state.buffer@.len() == s0.buffer@.len(),
            state.end == s0.end,
        decreases peers@.len() - i,
    {
        let ghost before = *state;
        match encode_ipv4_peer(state, &peers[i]) {
            Ok(()) => {
                proof {
                    assert(ps[i as int] == peers@[i as int]@);
                    lemma_enc_many_step(peer_item(), ps, i as int);
                    lemma_ipv4_address_roundtrip(ps[i as int].0, ps[i as int].1, Seq::empty());
                    lemma_wrote_trans(s1, before, *state, enc_many(peer_item(), ps.take(i as int)), enc_peer(ps[i as int]));
                    assert(valid_peers(ps.take(i + 1))) by {
                        assert forall|j: int| 0 <= j < i + 1 implies valid_host(#[trigger] ps.take(i + 1)[j].0) by {
                            if j < i {
                                assert(ps.take(i + 1)[j] == ps.take(i as int)[j]);
                            }
                        }
                    }
                }
                i = i + 1;
            },
            Err(e) => {
                proof {
                    assert(ps[i as int] == peers@[i as int]@);
                    lemma_leading_parsed_len(split_dots(ps[i as int].0));
                    assert(first_bad_host(ps, e)) by {
                        assert forall|j: int| 0 <= j < i implies valid_host(#[trigger] ps[j].0) by {
                            assert(ps.take(i as int)[j] == ps[j]);
                        }
                    }
                    assert(!valid_peers(ps));
                }
                return Err(e);
            },
        }
    }
    proof {
        assert(ps.take(i as int) =~= ps);
        lemma_uint_roundtrip(peers@.len() as u64, Seq::empty());
        lemma_wrote_trans(s0, s1, *state, enc_uint(peers@.len() as u64), enc_many(peer_item(), ps));
    }
    Ok(())
}

/// Decodes a peer list of at most [`MAX_ARRAY_LENGTH`] peers.
pub fn decode_ipv4_array(state: &mut State) -> (r: Result<Vec<Ipv4Peer>>)
    requires
        old(state).readable(),
    ensures
        read_as(
            *old(state),
            *final(state),
            r,
            parse_array(peer_parser(), old(state).rest()),
            |v: Vec<Ipv4Peer>| peers_view(v@),
        ),
        r is Ok ==> final(state).start - old(state).start <= old(state).rest().len(),
{
    let ghost s0 = *state;
    let len = decode_uint(state)? as usize;
    if len > MAX_ARRAY_LENGTH {
        return Err(EncodingError::ArrayTooLarge(len));
    }
    let ghost s1 = *state;
    proof {
        lemma_rest_skip(s0, s1, (s1.start - s0.start) as nat);
        assert(peers_view(Seq::<Ipv4Peer>::empty()) =~= Seq::<(Seq<char>, u16)>::empty());
    }
    let mut peers: Vec<Ipv4Peer> = Vec::new();
    let mut i: usize = 0;
    while i < len
        invariant
            i <= len <= MAX_ARRAY_LENGTH,
            s0 == *old(state),
            s0.readable(),
            parse_uint(s0.rest()) matches Ok((n, k)) && (n as usize) == len && s1.start == s0.start + k
                && s1.rest() == s0.rest().skip(k as int) && s1.buffer@ == s0.buffer@ && s1.end == s0.end,
            s1.readable(),
            state.buffer@ == s1.buffer@,
            state.end == s1.end,
            s1.start <= state.start,
            state.start - s1.start <= s1.rest().len(),
            parse_many(peer_parser(), s1.rest(), i as nat) == Ok::<(Seq<(Seq<char>, u16)>, nat), EncodingError>((
                peers_view(peers@),
                (state.start - s1.start) as nat,
            )),
        decreases len - i,
    {
        let ghost before = *state;
        proof {
            lemma_rest_skip(s1, before, (before.start - s1.start) as nat);
        }
        match decode_ipv4_peer(state) {
            Ok(p) => {
                let ghost old_peers = peers@;
                peers.push(p);
                proof {
                    assert(peers_view(peers@) =~= peers_view(old_peers).push(p@));
                }
                i = i + 1;
            },
            Err(e) => {
                proof {
                    assert(parse_many(peer_parser(), s1.rest(), (i + 1) as nat) == Err::<(Seq<(Seq<char>, u16)>, nat), EncodingError>(e));
                    lemma_parse_many_err(peer_parser(), s1.rest(), (i + 1) as nat, len as nat);
                }
                return Err(e);
            },
        }
    }
    Ok(peers)
}

// ── Message layout ──────────────────────────────────────────────────────────

/// `m` when `b` holds, else no bit.
pub open spec fn flag_bit(b: bool, m: u8) -> u8 {
    if b {
        m
    } else {
        0
    }
}

fn flag(b: bool, m: u8) -> (r: u8)
    ensures
        r == flag_bit(b, m),
{
    if b {
        m
    } else {
        0
    }
}

/// The flags byte of a request: which of id, token, internal, target and value it carries.
pub open spec fn request_flags(r: RequestView) -> u8 {
    flag_bit(r.id is Some, 1) | flag_bit(r.token is Some, 2) | flag_bit(r.internal, 4) | flag_bit(r.target is Some, 8)
        | flag_bit(r.value is Some, 16)
}

/// The flags byte of a response: which of id, token, closer nodes, error and value it carries.
pub open spec fn response_flags(r: ResponseView) -> u8 {
    flag_bit(r.id is Some, 1) | flag_bit(r.token is Some, 2) | flag_bit(r.closer_nodes.len() > 0, 4) | flag_bit(
        r.error != 0,
        8,
    ) | flag_bit(r.value is Some, 16)
}

/// The type byte, the flags and the transaction id.
pub open spec fn enc_header(type_id: u8, flags: u8, tid: u16) -> Seq<u8> {
    seq![type_id, flags] + le_bytes(tid as nat, 2)
}

/// A present value as a buffer; nothing for an absent one.
pub open spec fn enc_opt_value(v: Option<Seq<u8>>) -> Seq<u8> {
    match v {
        Some(b) => enc_buffer(Some(b)),
        None => Seq::empty(),
    }
}

/// The length of [`enc_opt_value`].
pub open spec fn opt_value_size(v: Option<Seq<u8>>) -> nat {
    match v {
        Some(b) => buffer_size(Some(b)),
        None => 0,
    }
}

/// The part every message has: type byte, flags, transaction id, destination,
/// id and token.
pub open spec fn enc_head(
    type_id: u8,
    flags: u8,
    tid: u16,
    to: (Seq<char>, u16),
    id: Option<Seq<u8>>,
    token: Option<Seq<u8>>,
) -> Seq<u8> {
    enc_header(type_id, flags, tid) + enc_peer(to) + opt_field(id) + opt_field(token)
}

/// What follows the head of a request: command, target and value.
pub open spec fn enc_request_tail(r: RequestView) -> Seq<u8> {
    enc_uint(r.command) + opt_field(r.target) + enc_opt_value(r.value)
}

/// The wire bytes of a request whose destination host is valid.
pub open spec fn enc_request(r: RequestView) -> Seq<u8> {
    enc_head(REQUEST_ID, request_flags(r), r.tid, r.to, r.id, r.token) + enc_request_tail(r)
}

/// The number of bytes [`preencode_request`] plans for a request.
pub open spec fn request_size(r: RequestView) -> nat {
    10 + opt_field(r.id).len() + opt_field(r.token).len() + uint_size(r.command) + opt_field(r.target).len()
        + opt_value_size(r.value)
}

/// Pre-encodes a [`Request`] to calculate the required buffer size.
pub fn preencode_request(state: &mut State, req: &Request)
    requires
        old(state).end + request_size(req@) <= usize::MAX,
    ensures
        planned(*old(state), *final(state), request_size(req@)),
{
    state.end = state.end + 4;
    preencode_ipv4_peer(state, &req.to);
    if req.id.is_some() {
        state.end = state.end + 32;
    }
    if req.token.is_some() {
        state.end = state.end + 32;
    }
    preencode_uint(state, req.command);
    if req.target.is_some() {
        state.end = state.end + 32;
    }
    match &req.value {
        Some(v) => preencode_buffer(state, Some(v.as_slice())),
        None => {},
    }
}

/// Writes the type byte, flags and transaction id.
fn encode_header(state: &mut State, type_id: u8, flags: u8, tid: u16)
    requires
        old(state).start + 4 <= old(state).buffer@.len(),
    ensures
        wrote(*old(state), *final(state), enc_header(type_id, flags, tid)),
{
    let ghost s0 = *state;
    encode_uint8(state, type_id);
    let ghost s1 = *state;
    encode_uint8(state, flags);
    let ghost s2 = *state;
    encode_uint16(state, tid);
    proof {
        lemma_le_bytes_len(tid as nat, 2);
        lemma_wrote_trans(s0, s1, s2, seq![type_id], seq![flags]);
        lemma_wrote_trans(s0, s2, *state, seq![type_id] + seq![flags], le_bytes(tid as nat, 2));
        assert(seq![type_id] + seq![flags] =~= seq![type_id, flags]);
    }
}

/// Writes a present value as a buffer, nothing for an absent one.
fn encode_opt_value(state: &mut State, value: &Option<Vec<u8>>)
    requires
        old(state).start + opt_value_size(opt_vec(*value)) <= old(state).buffer@.len(),
    ensures
        wrote(*old(state), *final(state), enc_opt_value(opt_vec(*value))),
        enc_opt_value(opt_vec(*value)).len() == opt_value_size(opt_vec(*value)),
{
    match value {
        Some(v) => {
            let _n = v.len();
            proof {
                lemma_buffer_roundtrip(Some(v@), Seq::empty());
            }
            encode_buffer(state, Some(v.as_slice()));
        },
        None => {
            proof {
                lemma_wrote_nothing(*state);
            }
        },
    }
}

/// Writes the part every message has. A bad destination host is refused with
/// the text in the error, after the header and the address fields before the
/// bad one are written.
fn encode_head(
    state: &mut State,
    type_id: u8,
    flags: u8,
    tid: u16,
    to: &Ipv4Peer,
    id: &Option<[u8; 32]>,
    token: &Option<[u8; 32]>,
) -> (r: Result<()>)
    requires
        old(state).start + 10 + opt_field(opt_arr32(*id)).len() + opt_field(opt_arr32(*token)).len()
            <= old(state).buffer@.len(),
    ensures
        r is Ok <==> valid_host(to.host@),
        r is Ok ==> wrote(
            *old(state),
            *final(state),
            enc_head(type_id, flags, tid, to@, opt_arr32(*id), opt_arr32(*token)),
        ),
        r is Ok ==> enc_head(type_id, flags, tid, to@, opt_arr32(*id), opt_arr32(*token)).len() == 10
            + opt_field(opt_arr32(*id)).len() + opt_field(opt_arr32(*token)).len(),
        r is Err ==> wrote(*old(state), *final(state), enc_header(type_id, flags, tid) + ipv4_written(to.host@)),
        r matches Err(e) ==> is_invalid_ipv4(e, to.host@),
{
    let ghost s0 = *state;
    encode_header(state, type_id, flags, tid);
    let ghost s1 = *state;
    let ghost h = enc_header(type_id, flags, tid);
    proof {
        lemma_le_bytes_len(tid as nat, 2);
        lemma_leading_parsed_len(split_dots(to.host@));
    }
    match encode_ipv4_peer(state, to) {
        Ok(()) => {},
        Err(e) => {
            proof {
                lemma_wrote_trans(s0, s1, *state, h, ipv4_written(to.host@));
            }
            return Err(e);
        },
    }
    let ghost s2 = *state;
    proof {
        lemma_ipv4_address_roundtrip(to.host@, to.port, Seq::empty());
        lemma_wrote_trans(s0, s1, s2, h, enc_peer(to@));
    }
    encode_opt_fixed32(state, id);
    let ghost s3 = *state;
    proof {
        lemma_wrote_trans(s0, s2, s3, h + enc_peer(to@), opt_field(opt_arr32(*id)));
    }
    encode_opt_fixed32(state, token);
    proof {
        lemma_wrote_trans(s0, s3, *state, h + enc_peer(to@) + opt_field(opt_arr32(*id)), opt_field(opt_arr32(*token)));
    }
    Ok(())
}

/// Encodes a [`Request`] into the compact-encoding buffer. A bad destination
/// host is refused with the text in the error, after the header and the
/// address fields before the bad one are written.
pub fn encode_request(state: &mut State, req: &Request) -> (r: Result<()>)
    requires
        old(state).start + request_size(req@) <= old(state).buffer@.len(),
    ensures
        r is Ok <==> valid_host(req.to.host@),
        r is Ok ==> wrote(*old(state), *final(state), enc_request(req@)),
        r is Err ==> wrote(
            *old(state),
            *final(state),
            enc_header(REQUEST_ID, request_flags(req@), req.tid) + ipv4_written(req.to.host@),
        ),
        r matches Err(e) ==> is_invalid_ipv4(e, req.to.host@),
{
    let ghost s0 = *state;
    let ghost rv = req@;
    let flags = flag(req.id.is_some(), FLAG_ID) | flag(req.token.is_some(), FLAG_TOKEN) | flag(
        req.internal,
        FLAG_INTERNAL_OR_CLOSER,
    ) | flag(req.target.is_some(), FLAG_TARGET_OR_ERROR) | flag(req.value.is_some(), FLAG_VALUE);
    encode_head(state, REQUEST_ID, flags, req.tid, &req.to, &req.id, &req.token)?;
    let ghost s1 = *state;
    let ghost h = enc_head(REQUEST_ID, flags, req.tid, rv.to, rv.id, rv.token);
    proof {
        lemma_uint_roundtrip(req.command, Seq::empty());
    }
    encode_uint(state, req.command);
    let ghost s2 = *state;
    encode_opt_fixed32(state, &req.target);
    let ghost s3 = *state;
    proof {
        lemma_wrote_trans(s1, s2, s3, enc_uint(rv.command), opt_field(rv.target));
    }
    encode_opt_value(state, &req.value);
    proof {
        lemma_wrote_trans(s1, s3, *state, enc_uint(rv.command) + opt_field(rv.target), enc_opt_value(rv.value));
        lemma_wrote_trans(s0, s1, *state, h, enc_request_tail(rv));
    }
    Ok(())
}

/// The closer nodes of a response: a peer list when there are any, else nothing.
pub open spec fn enc_closer(ps: Seq<(Seq<char>, u16)>) -> Seq<u8> {
    if ps.len() > 0 {
        enc_array(peer_item(), ps)
    } else {
        Seq::empty()
    }
}

/// The error code of a response when it is not zero, else nothing.
pub open spec fn enc_error(e: u64) -> Seq<u8> {
    if e != 0 {
        enc_uint(e)
    } else {
        Seq::empty()
    }
}

/// What follows the head of a response: closer nodes, error and value.
pub open spec fn enc_response_tail(r: ResponseView) -> Seq<u8> {
    enc_closer(r.closer_nodes) + enc_error(r.error) + enc_opt_value(r.value)
}

/// The wire bytes of a response whose hosts are all valid.
pub open spec fn enc_response(r: ResponseView) -> Seq<u8> {
    enc_head(RESPONSE_ID, response_flags(r), r.tid, r.to, r.id, r.token) + enc_response_tail(r)
}

/// The number of bytes [`preencode_response`] plans for a response.
pub open spec fn response_size(r: ResponseView) -> nat {
    10 + opt_field(r.id).len() + opt_field(r.token).len() + (if r.closer_nodes.len() > 0 {
        peers_size(r.closer_nodes.len())
    } else {
        0
    }) + (if r.error != 0 {
        uint_size(r.error)
    } else {
        0
    }) + opt_value_size(r.value)
}

/// The error [`encode_response`] gives for a response with a bad host: the
/// destination's when it is bad, else the first bad closer node's.
pub open spec fn response_host_error(r: ResponseView, e: EncodingError) -> bool {
    if !valid_host(r.to.0) {
        is_invalid_ipv4(e, r.to.0)
    } else {
        first_bad_host(r.closer_nodes, e)
    }
}

/// Pre-encodes a [`Response`] to calculate the required buffer size.
pub fn preencode_response(state: &mut State, res: &Response)
    requires
        old(state).end + response_size(res@) <= usize::MAX,
    ensures
        planned(*old(state), *final(state), response_size(res@)),
{
    state.end = state.end + 4;
    preencode_ipv4_peer(state, &res.to);
    if res.id.is_some() {
        state.end = state.end + 32;
    }
    if res.token.is_some() {
        state.end = state.end + 32;
    }
    if res.closer_nodes.len() > 0 {
        preencode_ipv4_array(state, res.closer_nodes.as_slice());
    }
    if res.error != 0 {
        preencode_uint(state, res.error);
    }
    match &res.value {
        Some(v) => preencode_buffer(state, Some(v.as_slice())),
        None => {},
    }
}

/// Encodes a [`Response`] into the compact-encoding buffer. A bad host is
/// refused with its text in the error.
pub fn encode_response(state: &mut State, res: &Response) -> (r: Result<()>)
    requires
        old(state).start + response_size(res@) <= old(state).buffer@.len(),
    ensures
        r is Ok <==> valid_host(res.to.host@) && valid_peers(res@.closer_nodes),
        r is Ok ==> wrote(*old(state), *final(state), enc_response(res@)),
        r matches Err(e) ==> response_host_error(res@, e),
{
    let ghost s0 = *state;
    let ghost rv = res@;
    let has_closer = res.closer_nodes.len() > 0;
    let flags = flag(res.id.is_some(), FLAG_ID) | flag(res.token.is_some(), FLAG_TOKEN) | flag(
        has_closer,
        FLAG_INTERNAL_OR_CLOSER,
    ) | flag(res.error != 0, FLAG_TARGET_OR_ERROR) | flag(res.value.is_some(), FLAG_VALUE);
    proof {
        assert(rv.closer_nodes.len() == res.closer_nodes@.len());
    }
    encode_head(state, RESPONSE_ID, flags, res.tid, &res.to, &res.id, &res.token)?;
    let ghost s1 = *state;
    let ghost h = enc_head(RESPONSE_ID, flags, res.tid, rv.to, rv.id, rv.token);
    if has_closer {
        encode_ipv4_array(state, res.closer_nodes.as_slice())?;
        proof {
            lemma_peers_len(rv.closer_nodes);
            lemma_uint_roundtrip(rv.closer_nodes.len() as u64, Seq::empty());
        }
    } else {
        proof {
            lemma_wrote_nothing(*state);
            assert(valid_peers(rv.closer_nodes));
        }
    }
    let ghost s2 = *state;
    if res.error != 0 {
        proof {
            lemma_uint_roundtrip(res.error, Seq::empty());
        }
        encode_uint(state, res.error);
    } else {
        proof {
            lemma_wrote_nothing(*state);
        }
    }
    let ghost s3 = *state;
    proof {
        lemma_wrote_trans(s1, s2, s3, enc_closer(rv.closer_nodes), enc_error(rv.error));
    }
    encode_opt_value(state, &res.value);
    proof {
        lemma_wrote_trans(s1, s3, *state, enc_closer(rv.closer_nodes) + enc_error(rv.error), enc_opt_value(rv.value));
        lemma_wrote_trans(s0, s1, *state, h, enc_response_tail(rv));
    }
    Ok(())
}

/// Serializes a [`Request`] to a byte vector.
pub fn encode_request_to_bytes(req: &Request) -> (r: Result<Vec<u8>>)
    requires
        request_size(req@) <= usize::MAX,
    ensures
        r is Ok <==> valid_host(req.to.host@),
        r matches Ok(b) ==> b@ == enc_request(req@),
        r matches Err(e) ==> is_invalid_ipv4(e, req.to.host@),
{
    let mut state = State::new();
    preencode_request(&mut state, req);
    state.allocate();
    encode_request(&mut state, req)?;
    proof {
        lemma_request_size(req@);
        assert(state.buffer@ =~= enc_request(req@));
    }
    Ok(state.buffer)
}

/// Serializes a [`Response`] to a byte vector.
pub fn encode_response_to_bytes(res: &Response) -> (r: Result<Vec<u8>>)
    requires
        response_size(res@) <= usize::MAX,
    ensures
        r is Ok <==> valid_host(res.to.host@) && valid_peers(res@.closer_nodes),
        r matches Ok(b) ==> b@ == enc_response(res@),
        r matches Err(e) ==> response_host_error(res@, e),
{
    let mut state = State::new();
    preencode_response(&mut state, res);
    state.allocate();
    encode_response(&mut state, res)?;
    proof {
        lemma_response_size(res@);
        assert(state.buffer@ =~= enc_response(res@));
    }
    Ok(state.buffer)
}

/// A request with a valid destination is as long as planned.
pub proof fn lemma_request_size(r: RequestView)
    requires
        valid_host(r.to.0),
        request_size(r) <= usize::MAX,
    ensures
        enc_request(r).len() == request_size(r),
{
    lemma_ipv4_address_roundtrip(r.to.0, r.to.1, Seq::empty());
    lemma_le_bytes_len(r.tid as nat, 2);
    lemma_uint_roundtrip(r.command, Seq::empty());
    if let Some(v) = r.value {
        lemma_buffer_roundtrip(Some(v), Seq::empty());
    }
}

/// A response with valid hosts is as long as planned.
pub proof fn lemma_response_size(r: ResponseView)
    requires
        valid_host(r.to.0),
        valid_peers(r.closer_nodes),
        response_size(r) <= usize::MAX,
    ensures
        enc_response(r).len() == response_size(r),
{
    lemma_ipv4_address_roundtrip(r.to.0, r.to.1, Seq::empty());
    lemma_le_bytes_len(r.tid as nat, 2);
    lemma_uint_roundtrip(r.error, Seq::empty());
    lemma_peers_len(r.closer_nodes);
    lemma_uint_roundtrip(r.closer_nodes.len() as u64, Seq::empty());
    if let Some(v) = r.value {
        lemma_buffer_roundtrip(Some(v), Seq::empty());
    }
}

// ── Decoding ────────────────────────────────────────────────────────────────

/// The fields every message has after its type byte: flags, transaction id,
/// destination, id and token.
pub type Head = (u8, u16, (Seq<char>, u16), Option<Seq<u8>>, Option<Seq<u8>>);

/// Reads the flags, transaction id, destination, id and token.
pub open spec fn parse_head(s: Seq<u8>) -> PResult<Head> {
    match parse_le(s, 1) {
        Err(e) => Err(e),
        Ok((f, k1)) => match parse_le(s.skip(k1 as int), 2) {
            Err(e) => Err(e),
            Ok((t, k2)) => match parse_ipv4_address(s.skip((k1 + k2) as int)) {
                Err(e) => Err(e),
                Ok((to, k3)) => match parse_opt(fixed32_parser(), s.skip((k1 + k2 + k3) as int), (f as u8) & 1 != 0) {
                    Err(e) => Err(e),
                    Ok((id, k4)) => match parse_opt(
                        fixed32_parser(),
                        s.skip((k1 + k2 + k3 + k4) as int),
                        (f as u8) & 2 != 0,
                    ) {
                        Err(e) => Err(e),
                        Ok((token, k5)) => Ok(((f as u8, t as u16, to, id, token), k1 + k2 + k3 + k4 + k5)),
                    },
                },
            },
        },
    }
}

/// A value read behind its flag: the buffer when the flag was set, else absent.
pub open spec fn flat_value(v: Option<Option<Seq<u8>>>) -> Option<Seq<u8>> {
    match v {
        Some(x) => x,
        None => None,
    }
}

/// Reads what follows the head of a request: command, target and value.
pub open spec fn parse_request_tail(s: Seq<u8>, flags: u8) -> PResult<(u64, Option<Seq<u8>>, Option<Seq<u8>>)> {
    match parse_uint(s) {
        Err(e) => Err(e),
        Ok((c, k1)) => match parse_opt(fixed32_parser(), s.skip(k1 as int), flags & 8 != 0) {
            Err(e) => Err(e),
            Ok((target, k2)) => match parse_opt(buffer_parser(), s.skip((k1 + k2) as int), flags & 16 != 0) {
                Err(e) => Err(e),
                Ok((v, k3)) => Ok(((c, target, flat_value(v)), k1 + k2 + k3)),
            },
        },
    }
}

/// Reads the closer nodes of a response when their flag is set.
pub open spec fn parse_closer(s: Seq<u8>, present: bool) -> PResult<Seq<(Seq<char>, u16)>> {
    if present {
        parse_array(peer_parser(), s)
    } else {
        Ok((Seq::empty(), 0))
    }
}

/// Reads what follows the head of a response: closer nodes, error and value.
pub open spec fn parse_response_tail(s: Seq<u8>, flags: u8) -> PResult<(Seq<(Seq<char>, u16)>, u64, Option<Seq<u8>>)> {
    match parse_closer(s, flags & 4 != 0) {
        Err(e) => Err(e),
        Ok((closer, k1)) => match parse_opt(uint_parser(), s.skip(k1 as int), flags & 8 != 0) {
            Err(e) => Err(e),
            Ok((err, k2)) => match parse_opt(buffer_parser(), s.skip((k1 + k2) as int), flags & 16 != 0) {
                Err(e) => Err(e),
                Ok((v, k3)) => Ok(((closer, if let Some(x) = err { x } else { 0 }, flat_value(v)), k1 + k2 + k3)),
            },
        },
    }
}

/// Reads a whole message from `s`; bytes after it are ignored.
pub open spec fn parse_message(s: Seq<u8>) -> core::result::Result<MessageView, EncodingError> {
    if s.len() == 0 {
        Err(EncodingError::OutOfBounds { need: 1, have: 0 })
    } else if s[0] & 0x0f != 3 {
        Err(EncodingError::InvalidIpFamily(s[0]))
    } else {
        match parse_head(s.skip(1)) {
            Err(e) => Err(e),
            Ok((h, k)) => if s[0] & 0xf0 != 0 {
                match parse_response_tail(s.skip((1 + k) as int), h.0) {
                    Err(e) => Err(e),
                    Ok((t, _)) => Ok(
                        MessageView::Response(
                            ResponseView {
                                tid: h.1,
                                to: h.2,
                                id: h.3,
                                token: h.4,
                                closer_nodes: t.0,
                                error: t.1,
                                value: t.2,
                            },
                        ),
                    ),
                }
            } else {
                match parse_request_tail(s.skip((1 + k) as int), h.0) {
                    Err(e) => Err(e),
                    Ok((t, _)) => Ok(
                        MessageView::Request(
                            RequestView {
                                tid: h.1,
                                to: h.2,
                                id: h.3,
                                token: h.4,
                                internal: h.0 & 4 != 0,
                                command: t.0,
                                target: t.1,
                                value: t.2,
                            },
                        ),
                    ),
                }
            },
        }
    }
}

fn decode_head(state: &mut State) -> (r: Result<(u8, u16, Ipv4Peer, Option<[u8; 32]>, Option<[u8; 32]>)>)
    requires
        old(state).readable(),
    ensures
        read_as(
            *old(state),
            *final(state),
            r,
            parse_head(old(state).rest()),
            |v: (u8, u16, Ipv4Peer, Option<[u8; 32]>, Option<[u8; 32]>)| (v.0, v.1, v.2@, opt_arr32(v.3), opt_arr32(v.4)),
        ),
{
    let ghost s0 = *state;
    let flags = decode_uint8(state)?;
    let ghost s1 = *state;
    proof {
        lemma_rest_skip(s0, s1, 1);
    }
    let tid = decode_uint16(state)?;
    let ghost s2 = *state;
    proof {
        lemma_rest_skip(s0, s2, 3);
        assert(s1.rest().skip(2) =~= s0.rest().skip(3));
    }
    let to = decode_ipv4_peer(state)?;
    let ghost s3 = *state;
    proof {
        lemma_rest_skip(s0, s3, 9);
        assert(s2.rest().skip(6) =~= s0.rest().skip(9));
    }
    let id = decode_opt_fixed32(state, flags & FLAG_ID != 0)?;
    let ghost s4 = *state;
    let ghost k4 = (s4.start - s3.start) as nat;
    proof {
        lemma_rest_skip(s0, s4, 9 + k4);
        assert(s3.rest().skip(k4 as int) =~= s0.rest().skip((9 + k4) as int));
    }
    let token = decode_opt_fixed32(state, flags & FLAG_TOKEN != 0)?;
    Ok((flags, tid, to, id, token))
}

fn decode_request_tail(state: &mut State, flags: u8) -> (r: Result<(u64, Option<[u8; 32]>, Option<Vec<u8>>)>)
    requires
        old(state).readable(),
    ensures
        read_as(
            *old(state),
            *final(state),
            r,
            parse_request_tail(old(state).rest(), flags),
            |v: (u64, Option<[u8; 32]>, Option<Vec<u8>>)| (v.0, opt_arr32(v.1), opt_vec(v.2)),
        ),
{
    let ghost s0 = *state;
    let command = decode_uint(state)?;
    let ghost s1 = *state;
    let ghost k1 = (s1.start - s0.start) as nat;
    proof {
        lemma_rest_skip(s0, s1, k1);
    }
    let target = decode_opt_fixed32(state, flags & FLAG_TARGET_OR_ERROR != 0)?;
    let ghost s2 = *state;
    let ghost k2 = (s2.start - s1.start) as nat;
    proof {
        lemma_rest_skip(s0, s2, k1 + k2);
        assert(s1.rest().skip(k2 as int) =~= s0.rest().skip((k1 + k2) as int));
    }
    let value = decode_opt_buffer(state, flags & FLAG_VALUE != 0)?;
    let value = match value {
        Some(v) => Some(v),
        None => None,
    };
    Ok((command, target, value))
}

fn decode_response_tail(state: &mut State, flags: u8) -> (r: Result<(Vec<Ipv4Peer>, u64, Option<Vec<u8>>)>)
    requires
        old(state).readable(),
    ensures
        read_as(
            *old(state),
            *final(state),
            r,
            parse_response_tail(old(state).rest(), flags),
            |v: (Vec<Ipv4Peer>, u64, Option<Vec<u8>>)| (peers_view(v.0@), v.1, opt_vec(v.2)),
        ),
{
    let ghost s0 = *state;
    let closer_nodes = if flags & FLAG_INTERNAL_OR_CLOSER != 0 {
        decode_ipv4_array(state)?
    } else {
        proof {
            assert(peers_view(Seq::<Ipv4Peer>::empty()) =~= Seq::<(Seq<char>, u16)>::empty());
        }
        Vec::new()
    };
    let ghost s1 = *state;
    let ghost k1 = (s1.start - s0.start) as nat;
    proof {
        lemma_rest_skip(s0, s1, k1);
    }
    let error = decode_uint_or_zero(state, flags & FLAG_TARGET_OR_ERROR != 0)?;
    let ghost s2 = *state;
    let ghost k2 = (s2.start - s1.start) as nat;
    proof {
        lemma_rest_skip(s0, s2, k1 + k2);
        assert(s1.rest().skip(k2 as int) =~= s0.rest().skip((k1 + k2) as int));
    }
    let value = decode_opt_buffer(state, flags & FLAG_VALUE != 0)?;
    Ok((closer_nodes, error, value))
}

/// Decodes a [`Message`] from the compact-encoding buffer.
pub fn decode_message(buf: &[u8]) -> (r: Result<Message>)
    ensures
        match r {
            Ok(m) => parse_message(buf@) == Ok::<MessageView, EncodingError>(m@),
            Err(e) => parse_message(buf@) == Err::<MessageView, EncodingError>(e),
        },
{
    if buf.len() == 0 {
        return Err(EncodingError::OutOfBounds { need: 1, have: 0 });
    }
    let type_version = buf[0];
    if type_version & 0x0f != VERSION {
        return Err(EncodingError::InvalidIpFamily(type_version));
    }
    let mut state = State::from_buffer(buf);
    state.start = 1;
    proof {
        assert(state.rest() =~= buf@.skip(1));
    }
    let ghost s1 = state;
    let (flags, tid, to, id, token) = decode_head(&mut state)?;
    let ghost k = (state.start - s1.start) as nat;
    proof {
        lemma_rest_skip(s1, state, k);
        assert(s1.rest().skip(k as int) =~= buf@.skip((1 + k) as int));
    }
    if type_version & 0xf0 != 0 {
        let (closer_nodes, error, value) = decode_response_tail(&mut state, flags)?;
        Ok(Message::Response(Response { tid, to, id, token, closer_nodes, error, value }))
    } else {
        let internal = flags & FLAG_INTERNAL_OR_CLOSER != 0;
        let (command, target, value) = decode_request_tail(&mut state, flags)?;
        Ok(Message::Request(Request { tid, to, id, token, internal, command, target, value }))
    }
}

// ── Laws ────────────────────────────────────────────────────────────────────

/// The flags byte tells each of its five fields apart.
pub proof fn lemma_flag_bits(a: bool, b: bool, c: bool, d: bool, e: bool)
    ensures
        ({
            let f = flag_bit(a, 1) | flag_bit(b, 2) | flag_bit(c, 4) | flag_bit(d, 8) | flag_bit(e, 16);
            &&& (f & 1 != 0) == a
            &&& (f & 2 != 0) == b
            &&& (f & 4 != 0) == c
            &&& (f & 8 != 0) == d
            &&& (f & 16 != 0) == e
        }),
{
    assert({
        let f = (if a { 1u8 } else { 0u8 }) | (if b { 2u8 } else { 0u8 }) | (if c { 4u8 } else { 0u8 }) | (if d {
            8u8
        } else {
            0u8
        }) | (if e { 16u8 } else { 0u8 });
        &&& (f & 1 != 0) == a
        &&& (f & 2 != 0) == b
        &&& (f & 4 != 0) == c
        &&& (f & 8 != 0) == d
        &&& (f & 16 != 0) == e
    }) by (bit_vector);
}

/// Whether each present 32-byte field of a request has 32 bytes, as the
/// fields of [`Request`] always do.
pub open spec fn request_wf(r: RequestView) -> bool {
    &&& r.id matches Some(x) ==> x.len() == 32
    &&& r.token matches Some(x) ==> x.len() == 32
    &&& r.target matches Some(x) ==> x.len() == 32
    &&& r.value matches Some(x) ==> x.len() <= usize::MAX
}

/// Whether each present 32-byte field of a response has 32 bytes, as the
/// fields of [`Response`] always do.
pub open spec fn response_wf(r: ResponseView) -> bool {
    &&& r.id matches Some(x) ==> x.len() == 32
    &&& r.token matches Some(x) ==> x.len() == 32
    &&& r.value matches Some(x) ==> x.len() <= usize::MAX
}

/// A value as it reads back: an empty buffer reads as absent.
pub open spec fn norm_value(v: Option<Seq<u8>>) -> Option<Seq<u8>> {
    match v {
        Some(x) => if x.len() == 0 {
            None
        } else {
            Some(x)
        },
        None => None,
    }
}

/// A request as it reads back: canonical host text, empty value absent.
pub open spec fn canon_request(r: RequestView) -> RequestView {
    RequestView { to: canon_peer(r.to), value: norm_value(r.value), ..r }
}

/// A response as it reads back: canonical host texts, empty value absent.
pub open spec fn canon_response(r: ResponseView) -> ResponseView {
    ResponseView {
        to: canon_peer(r.to),
        closer_nodes: r.closer_nodes.map_values(canon_peer_fn()),
        value: norm_value(r.value),
        ..r
    }
}

proof fn lemma_opt_fixed_roundtrip(b: Option<Seq<u8>>, rest: Seq<u8>)
    requires
        b matches Some(x) ==> x.len() == 32,
    ensures
        parse_opt(fixed32_parser(), opt_field(b) + rest, b is Some) == Ok::<(Option<Seq<u8>>, nat), EncodingError>((
            b,
            opt_field(b).len(),
        )),
{
    if let Some(x) = b {
        lemma_fixed_roundtrip(x, rest);
    }
}

proof fn lemma_opt_value_roundtrip(v: Option<Seq<u8>>, rest: Seq<u8>)
    requires
        v matches Some(x) ==> x.len() <= usize::MAX,
    ensures
        enc_opt_value(v).len() == opt_value_size(v),
        parse_opt(buffer_parser(), enc_opt_value(v) + rest, v is Some) matches Ok((w, k)) && flat_value(w) == norm_value(
            v,
        ) && k == opt_value_size(v),
{
    if let Some(x) = v {
        lemma_buffer_roundtrip(Some(x), rest);
    }
}

proof fn lemma_head_roundtrip(
    type_id: u8,
    flags: u8,
    tid: u16,
    to: (Seq<char>, u16),
    id: Option<Seq<u8>>,
    token: Option<Seq<u8>>,
    rest: Seq<u8>,
)
    requires
        valid_host(to.0),
        id matches Some(x) ==> x.len() == 32,
        token matches Some(x) ==> x.len() == 32,
        (flags & 1 != 0) == id is Some,
        (flags & 2 != 0) == token is Some,
    ensures
        enc_head(type_id, flags, tid, to, id, token).len() == 10 + opt_field(id).len() + opt_field(token).len(),
        enc_head(type_id, flags, tid, to, id, token)[0] == type_id,
        parse_head(enc_head(type_id, flags, tid, to, id, token).skip(1) + rest) == Ok::<(Head, nat), EncodingError>((
            (flags, tid, canon_peer(to), id, token),
            (9 + opt_field(id).len() + opt_field(token).len()) as nat,
        )),
{
    let pe = enc_peer(to);
    let fi = opt_field(id);
    let ft = opt_field(token);
    lemma_ipv4_address_roundtrip(to.0, to.1, fi + ft + rest);
    lemma_le_bytes_len(tid as nat, 2);
    lemma_le_value_of_bytes(tid as nat, 2);
    lemma_le_value_one(flags);
    reveal_with_fuel(pow256, 3);
    vstd::arithmetic::div_mod::lemma_small_mod(tid as nat, 65536);
    let s = enc_head(type_id, flags, tid, to, id, token).skip(1) + rest;
    assert(s =~= seq![flags] + (le_bytes(tid as nat, 2) + (pe + (fi + (ft + rest)))));
    assert(s.take(1) =~= seq![flags]);
    assert(s.skip(1).take(2) =~= le_bytes(tid as nat, 2));
    assert(s.skip(3) =~= pe + (fi + ft + rest));
    assert(parse_le(s.skip(1), 2) == Ok::<(nat, nat), EncodingError>((tid as nat, 2)));
    assert(s.skip(9) =~= fi + (ft + rest));
    lemma_opt_fixed_roundtrip(id, ft + rest);
    assert(s.skip((9 + fi.len()) as int) =~= ft + rest);
    lemma_opt_fixed_roundtrip(token, rest);
}

proof fn lemma_split_after_head(h: Seq<u8>, tail: Seq<u8>, k: nat)
    requires
        h.len() == 1 + k,
    ensures
        (h + tail)[0] == h[0],
        (h + tail).len() > 0,
        (h + tail).skip(1) == h.skip(1) + tail,
        (h + tail).skip((1 + k) as int) == tail,
{
    assert((h + tail).skip(1) =~= h.skip(1) + tail);
    assert((h + tail).skip((1 + k) as int) =~= tail);
}

proof fn lemma_request_tail_roundtrip(flags: u8, r: RequestView)
    requires
        request_wf(r),
        (flags & 8 != 0) == r.target is Some,
        (flags & 16 != 0) == r.value is Some,
    ensures
        parse_request_tail(enc_request_tail(r), flags) matches Ok((t, _))
            && t == (r.command, r.target, norm_value(r.value)),
{
    let tail = enc_uint(r.command) + opt_field(r.target) + enc_opt_value(r.value);
    lemma_uint_roundtrip(r.command, opt_field(r.target) + enc_opt_value(r.value));
    assert(tail =~= enc_uint(r.command) + (opt_field(r.target) + enc_opt_value(r.value)));
    assert(tail.skip(uint_size(r.command) as int) =~= opt_field(r.target) + enc_opt_value(r.value));
    lemma_opt_fixed_roundtrip(r.target, enc_opt_value(r.value));
    assert(tail.skip((uint_size(r.command) + opt_field(r.target).len()) as int) =~= enc_opt_value(r.value)
        + Seq::empty());
    lemma_opt_value_roundtrip(r.value, Seq::empty());
    assert(enc_opt_value(r.value) + Seq::empty() =~= enc_opt_value(r.value));
}

/// A request with a valid destination reads back as itself, with the
/// destination's canonical host text and an empty value read as absent.
#[verifier::rlimit(40)]
pub proof fn lemma_request_roundtrip(r: RequestView)
    requires
        valid_host(r.to.0),
        request_wf(r),
    ensures
        parse_message(enc_request(r)) == Ok::<MessageView, EncodingError>(MessageView::Request(canon_request(r))),
{
    let f = request_flags(r);
    lemma_flag_bits(r.id is Some, r.token is Some, r.internal, r.target is Some, r.value is Some);
    let h = enc_head(REQUEST_ID, f, r.tid, r.to, r.id, r.token);
    let tail = enc_request_tail(r);
    let k = (9 + opt_field(r.id).len() + opt_field(r.token).len()) as nat;
    let s = enc_request(r);
    lemma_head_roundtrip(REQUEST_ID, f, r.tid, r.to, r.id, r.token, tail);
    lemma_split_after_head(h, tail, k);
    lemma_request_tail_roundtrip(f, r);
    assert(s[0] == REQUEST_ID);
    assert((3u8 & 0x0fu8) == 3u8 && (3u8 & 0xf0u8) == 0u8) by (bit_vector);
    assert(parse_head(s.skip(1)) == Ok::<(Head, nat), EncodingError>(((f, r.tid, canon_peer(r.to), r.id, r.token), k)));
    let t = (r.command, r.target, norm_value(r.value));
    assert(parse_request_tail(s.skip((1 + k) as int), f) matches Ok((t2, _)) && t2 == t);
}

proof fn lemma_closer_roundtrip(ps: Seq<(Seq<char>, u16)>, rest: Seq<u8>)
    requires
        valid_peers(ps),
        ps.len() <= 0x100000,
    ensures
        parse_closer(enc_closer(ps) + rest, ps.len() > 0) == Ok::<(Seq<(Seq<char>, u16)>, nat), EncodingError>((
            ps.map_values(canon_peer_fn()),
            enc_closer(ps).len(),
        )),
{
    if ps.len() > 0 {
        lemma_peers_roundtrip(ps, rest);
    } else {
        assert(ps.map_values(canon_peer_fn()) =~= Seq::<(Seq<char>, u16)>::empty());
    }
}

#[verifier::rlimit(40)]
proof fn lemma_response_tail_roundtrip(flags: u8, r: ResponseView)
    requires
        response_wf(r),
        valid_peers(r.closer_nodes),
        r.closer_nodes.len() <= 0x100000,
        (flags & 4 != 0) == (r.closer_nodes.len() > 0),
        (flags & 8 != 0) == (r.error != 0),
        (flags & 16 != 0) == r.value is Some,
    ensures
        parse_response_tail(enc_response_tail(r), flags) matches Ok((t, _))
            && t == (r.closer_nodes.map_values(canon_peer_fn()), r.error, norm_value(r.value)),
{
    let c = enc_closer(r.closer_nodes);
    let er = enc_error(r.error);
    let v = enc_opt_value(r.value);
    let tail = c + er + v;
    lemma_closer_roundtrip(r.closer_nodes, er + v);
    assert(tail =~= c + (er + v));
    assert(tail.skip(c.len() as int) =~= er + v);
    lemma_uint_roundtrip(r.error, v);
    if r.error == 0 {
        assert(er + v =~= v);
    }
    assert(tail.skip((c.len() + er.len()) as int) =~= v + Seq::empty());
    lemma_opt_value_roundtrip(r.value, Seq::empty());
    assert(v + Seq::empty() =~= v);
}

/// A response with valid hosts and at most [`MAX_ARRAY_LENGTH`] closer nodes
/// reads back as itself, with canonical host texts and an empty value read as
/// absent.
#[verifier::rlimit(40)]
pub proof fn lemma_response_roundtrip(r: ResponseView)
    requires
        valid_host(r.to.0),
        valid_peers(r.closer_nodes),
        r.closer_nodes.len() <= 0x100000,
        response_wf(r),
    ensures
        parse_message(enc_response(r)) == Ok::<MessageView, EncodingError>(MessageView::Response(canon_response(r))),
{
    let f = response_flags(r);
    lemma_flag_bits(r.id is Some, r.token is Some, r.closer_nodes.len() > 0, r.error != 0, r.value is Some);
    let h = enc_head(RESPONSE_ID, f, r.tid, r.to, r.id, r.token);
    let tail = enc_response_tail(r);
    let k = (9 + opt_field(r.id).len() + opt_field(r.token).len()) as nat;
    let s = enc_response(r);
    lemma_head_roundtrip(RESPONSE_ID, f, r.tid, r.to, r.id, r.token, tail);
    lemma_split_after_head(h, tail, k);
    lemma_response_tail_roundtrip(f, r);
    assert(s[0] == RESPONSE_ID);
    assert((0x13u8 & 0x0fu8) == 3u8 && (0x13u8 & 0xf0u8) != 0u8) by (bit_vector);
    assert(parse_head(s.skip(1)) == Ok::<(Head, nat), EncodingError>(((f, r.tid, canon_peer(r.to), r.id, r.token), k)));
    let t = (r.closer_nodes.map_values(canon_peer_fn()), r.error, norm_value(r.value));
    assert(parse_response_tail(s.skip((1 + k) as int), f) matches Ok((t2, _)) && t2 == t);
}

} // verus!
