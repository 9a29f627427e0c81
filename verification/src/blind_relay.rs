//! Blind-relay protocol messages, carried over a multiplexer channel named
//! `blind-relay`: pair (type 0) asks the relay to join two connections that
//! present the same token, unpair (type 1) withdraws the request.
//!
//! Pair: a flags byte (bit 0: initiator), the 32-byte token, the stream id
//! and sequence number as compact uints. Unpair: a zero flags byte and the token.
use vstd::prelude::*;
use crate::compact_encoding::{
    decode_fixed32, decode_uint, decode_uint8, enc_uint, encode_fixed32, encode_uint, encode_uint8,
    lemma_fixed_roundtrip, lemma_le_value_one, lemma_rest_skip, lemma_uint_roundtrip, lemma_wrote_trans,
    parse_fixed, parse_le, parse_uint, planned, preencode_uint, read_as, uint_size, wrote, EncodingError, PResult,
    Result, State,
};
use crate::hyperdht_messages::decoded_as;
use crate::protomux::{ChannelEvent, ProtomuxError};

verus! {

/// A request to the relay to pair this connection with the one presenting
/// the same token.
#[derive(Debug, Clone, PartialEq)]
pub struct PairMessage {
    pub is_initiator: bool,
    pub token: [u8; 32],
    pub id: u64,
    pub seq: u64,
}

/// A withdrawal of a pair request.
#[derive(Debug, Clone, PartialEq)]
pub struct UnpairMessage {
    pub token: [u8; 32],
}

/// The multiplexer protocol name of the blind relay.
pub const PROTOCOL_NAME: &'static str = "blind-relay";

/// The multiplexer message type of a pair request.
pub const MSG_TYPE_PAIR: u32 = 0;

/// The multiplexer message type of an unpair request.
pub const MSG_TYPE_UNPAIR: u32 = 1;

/// A pair request as plain values.
pub type PairView = (bool, Seq<u8>, u64, u64);

impl View for PairMessage {
    type V = PairView;

    open spec fn view(&self) -> PairView {
        (self.is_initiator, self.token@, self.id, self.seq)
    }
}

/// The wire bytes of a pair request.
pub open spec fn enc_pair(m: PairView) -> Seq<u8> {
    seq![if m.0 { 1u8 } else { 0u8 }] + m.1 + enc_uint(m.2) + enc_uint(m.3)
}

/// The size of a pair request.
pub open spec fn pair_size(m: PairView) -> nat {
    33 + uint_size(m.2) + uint_size(m.3)
}

/// Reads a pair request: bit 0 of the flags is the initiator flag.
pub open spec fn parse_pair(s: Seq<u8>) -> PResult<PairView> {
    match parse_le(s, 1) {
        Err(e) => Err(e),
        Ok((f, k1)) => match parse_fixed(s.skip(k1 as int), 32) {
            Err(e) => Err(e),
            Ok((token, k2)) => match parse_uint(s.skip((k1 + k2) as int)) {
                Err(e) => Err(e),
                Ok((id, k3)) => match parse_uint(s.skip((k1 + k2 + k3) as int)) {
                    Err(e) => Err(e),
                    Ok((seq, k4)) => Ok((((f as u8) & 1 != 0, token, id, seq), k1 + k2 + k3 + k4)),
                },
            },
        },
    }
}

/// Pre-encodes a [`PairMessage`].
pub fn preencode_pair(state: &mut State, msg: &PairMessage)
    requires
        old(state).end + pair_size(msg@) <= usize::MAX,
    ensures
        planned(*old(state), *final(state), pair_size(msg@)),
{
    state.end = state.end + 33;
    preencode_uint(state, msg.id);
    preencode_uint(state, msg.seq);
}

/// Encodes a [`PairMessage`].
pub fn encode_pair(state: &mut State, msg: &PairMessage)
    requires
        old(state).start + pair_size(msg@) <= old(state).buffer@.len(),
    ensures
        wrote(*old(state), *final(state), enc_pair(msg@)),
        enc_pair(msg@).len() == pair_size(msg@),
{
    let ghost s0 = *state;
    let flags: u8 = if msg.is_initiator {
        1
    } else {
        0
    };
    proof {
        lemma_uint_roundtrip(msg.id, Seq::empty());
        lemma_uint_roundtrip(msg.seq, Seq::empty());
    }
    encode_uint8(state, flags);
    let ghost s1 = *state;
    encode_fixed32(state, &msg.token);
    let ghost s2 = *state;
    encode_uint(state, msg.id);
    let ghost s3 = *state;
    encode_uint(state, msg.seq);
    proof {
        lemma_wrote_trans(s0, s1, s2, seq![flags], msg.token@);
        lemma_wrote_trans(s0, s2, s3, seq![flags] + msg.token@, enc_uint(msg.id));
        lemma_wrote_trans(s0, s3, *state, seq![flags] + msg.token@ + enc_uint(msg.id), enc_uint(msg.seq));
    }
}

/// Decodes a [`PairMessage`].
pub fn decode_pair(state: &mut State) -> (r: Result<PairMessage>)
    requires
        old(state).readable(),
    ensures
        read_as(*old(state), *final(state), r, parse_pair(old(state).rest()), |v: PairMessage| v@),
{
    let ghost s0 = *state;
    let flags = decode_uint8(state)?;
    let is_initiator = flags & 1 != 0;
    let ghost s1 = *state;
    proof {
        lemma_rest_skip(s0, s1, 1);
    }
    let token = decode_fixed32(state)?;
    let ghost s2 = *state;
    proof {
        lemma_rest_skip(s0, s2, 33);
        assert(s1.rest().skip(32) =~= s0.rest().skip(33));
    }
    let id = decode_uint(state)?;
    let ghost s3 = *state;
    let ghost k3 = (s3.start - s2.start) as nat;
    proof {
        lemma_rest_skip(s0, s3, 33 + k3);
        assert(s2.rest().skip(k3 as int) =~= s0.rest().skip((33 + k3) as int));
    }
    let seq = decode_uint(state)?;
    Ok(PairMessage { is_initiator, token, id, seq })
}

/// Pre-encodes an [`UnpairMessage`]: 33 bytes.
pub fn preencode_unpair(state: &mut State, _msg: &UnpairMessage)
    requires
        old(state).end + 33 <= usize::MAX,
    ensures
        planned(*old(state), *final(state), 33),
{
    state.end = state.end + 33;
}

/// The wire bytes of an unpair request.
pub open spec fn enc_unpair(token: Seq<u8>) -> Seq<u8> {
    seq![0u8] + token
}

/// Reads an unpair request; the flags are read and ignored.
pub open spec fn parse_unpair(s: Seq<u8>) -> PResult<Seq<u8>> {
    match parse_le(s, 1) {
        Err(e) => Err(e),
        Ok((_f, k1)) => match parse_fixed(s.skip(k1 as int), 32) {
            Err(e) => Err(e),
            Ok((token, k2)) => Ok((token, k1 + k2)),
        },
    }
}

/// Encodes an [`UnpairMessage`].
pub fn encode_unpair(state: &mut State, msg: &UnpairMessage)
    requires
        old(state).start + 33 <= old(state).buffer@.len(),
    ensures
        wrote(*old(state), *final(state), enc_unpair(msg.token@)),
{
    let ghost s0 = *state;
    encode_uint8(state, 0);
    let ghost s1 = *state;
    encode_fixed32(state, &msg.token);
    proof {
        lemma_wrote_trans(s0, s1, *state, seq![0u8], msg.token@);
    }
}

/// Decodes an [`UnpairMessage`].
pub fn decode_unpair(state: &mut State) -> (r: Result<UnpairMessage>)
    requires
        old(state).readable(),
    ensures
        read_as(*old(state), *final(state), r, parse_unpair(old(state).rest()), |v: UnpairMessage| v.token@),
{
    let ghost s0 = *state;
    let _flags = decode_uint8(state)?;
    proof {
        lemma_rest_skip(s0, *state, 1);
    }
    let token = decode_fixed32(state)?;
    Ok(UnpairMessage { token })
}

/// Serializes a [`PairMessage`] to bytes.
pub fn encode_pair_to_vec(msg: &PairMessage) -> (b: Vec<u8>)
    ensures
        b@ == enc_pair(msg@),
{
    let mut state = State::new();
    preencode_pair(&mut state, msg);
    state.allocate();
    encode_pair(&mut state, msg);
    proof {
        assert(state.buffer@ =~= enc_pair(msg@));
    }
    state.buffer
}

/// Serializes an [`UnpairMessage`] to bytes.
pub fn encode_unpair_to_vec(msg: &UnpairMessage) -> (b: Vec<u8>)
    ensures
        b@ == enc_unpair(msg.token@),
{
    let mut state = State::new();
    preencode_unpair(&mut state, msg);
    state.allocate();
    encode_unpair(&mut state, msg);
    proof {
        assert(state.buffer@ =~= enc_unpair(msg.token@));
    }
    state.buffer
}

/// Deserializes a [`PairMessage`] from the start of a byte slice.
pub fn decode_pair_from_slice(data: &[u8]) -> (r: Result<PairMessage>)
    ensures
        decoded_as(r, parse_pair(data@), |v: PairMessage| v@),
{
    let mut state = State::from_buffer(data);
    proof {
        assert(state.rest() =~= data@);
    }
    decode_pair(&mut state)
}

/// Deserializes an [`UnpairMessage`] from the start of a byte slice.
pub fn decode_unpair_from_slice(data: &[u8]) -> (r: Result<UnpairMessage>)
    ensures
        decoded_as(r, parse_unpair(data@), |v: UnpairMessage| v.token@),
{
    let mut state = State::from_buffer(data);
    proof {
        assert(state.rest() =~= data@);
    }
    decode_unpair(&mut state)
}

/// A pair request reads back as itself.
pub proof fn lemma_pair_roundtrip(m: PairView, rest: Seq<u8>)
    requires
        m.1.len() == 32,
    ensures
        parse_pair(enc_pair(m) + rest) == Ok::<(PairView, nat), EncodingError>((m, pair_size(m))),
{
    let f: u8 = if m.0 { 1 } else { 0 };
    let a = seq![f];
    let b = m.1;
    let c = enc_uint(m.2);
    let d = enc_uint(m.3);
    crate::compact_encoding::lemma_assoc4(a, b, c, d, rest);
    let t1 = b + (c + (d + rest));
    let t0 = a + t1;
    lemma_le_value_one(f);
    assert(t0.take(1) =~= seq![f]);
    crate::compact_encoding::lemma_skip_append(a, t1);
    lemma_fixed_roundtrip(b, c + (d + rest));
    crate::compact_encoding::lemma_skip_append(b, c + (d + rest));
    crate::compact_encoding::lemma_skip_skip(t0, 1, 32);
    lemma_uint_roundtrip(m.2, d + rest);
    crate::compact_encoding::lemma_skip_append(c, d + rest);
    crate::compact_encoding::lemma_skip_skip(t0, 33, c.len());
    lemma_uint_roundtrip(m.3, rest);
    assert((1u8 & 1u8) != 0u8 && (0u8 & 1u8) == 0u8) by (bit_vector);
    assert(parse_le(t0, 1) == Ok::<(nat, nat), EncodingError>((f as nat, 1)));
}

/// An unpair request reads back as its token.
pub proof fn lemma_unpair_roundtrip(token: Seq<u8>, rest: Seq<u8>)
    requires
        token.len() == 32,
    ensures
        parse_unpair(enc_unpair(token) + rest) == Ok::<(Seq<u8>, nat), EncodingError>((token, 33)),
{
    let t0 = seq![0u8] + (token + rest);
    assert(enc_unpair(token) + rest =~= t0);
    lemma_le_value_one(0);
    assert(t0.take(1) =~= seq![0u8]);
    crate::compact_encoding::lemma_skip_append(seq![0u8], token + rest);
    lemma_fixed_roundtrip(token, rest);
}

// ── Client decisions ────────────────────────────────────────────────────────

/// Errors of the blind-relay client.
#[derive(Debug)]
pub enum RelayError {
    /// The multiplexer failed.
    Protomux(ProtomuxError),
    /// A relay message did not decode.
    Encoding(EncodingError),
    /// The channel closed before the relay answered the pair request.
    ChannelClosed,
    /// The client was destroyed.
    Destroyed,
    /// A pair request with this token is already pending.
    AlreadyPairing,
}

/// The relay's answer to a pair request.
#[derive(Debug, Clone)]
pub struct PairResponse {
    /// The relay-side stream id to connect to.
    pub remote_id: u64,
}

/// What a client waiting for its pair answer does with the next channel event.
#[derive(Debug)]
pub enum PairStep {
    /// Keep waiting.
    Wait,
    /// The relay paired the request.
    Paired(PairResponse),
    /// The wait failed.
    Failed(RelayError),
}

/// Whether two 32-byte tokens are equal.
pub fn same_token(a: &[u8; 32], b: &[u8; 32]) -> (r: bool)
    ensures
        r == (a@ == b@),
{
    let mut i: usize = 0;
    while i < 32
        invariant
            i <= 32,
            a@.len() == 32,
            b@.len() == 32,
            forall|j: int| 0 <= j < i ==> a@[j] == b@[j],
        decreases 32 - i,
    {
        if a[i] != b[i] {
            return false;
        }
        i = i + 1;
    }
    assert(a@ =~= b@);
    true
}

/// The step of [`pair_step`] for each event, as plain values: a pair message
/// that decodes with the same token and role pairs; one that does not decode
/// fails with its error; a close, or no event at all, fails; anything else waits.
pub open spec fn pair_step_spec(event: Option<ChannelEvent>, is_initiator: bool, token: Seq<u8>) -> PairStep {
    match event {
        Some(ChannelEvent::Message { message_type, data }) => if message_type == MSG_TYPE_PAIR {
            match parse_pair(data@) {
                Err(e) => PairStep::Failed(RelayError::Encoding(e)),
                Ok((m, _k)) => if m.1 == token && m.0 == is_initiator {
                    PairStep::Paired(PairResponse { remote_id: m.2 })
                } else {
                    PairStep::Wait
                },
            }
        } else {
            PairStep::Wait
        },
        Some(ChannelEvent::Closed { .. }) | None => PairStep::Failed(RelayError::ChannelClosed),
        Some(ChannelEvent::Opened { .. }) => PairStep::Wait,
    }
}

/// Decides what a client that sent a pair request with `token` in the role
/// `is_initiator` does with the next event of its channel (`None`: the channel
/// is gone).
pub fn pair_step(event: Option<ChannelEvent>, is_initiator: bool, token: &[u8; 32]) -> (r: PairStep)
    ensures
        r == pair_step_spec(event, is_initiator, token@),
{
    match event {
        Some(ChannelEvent::Message { message_type, data }) => {
            if message_type == MSG_TYPE_PAIR {
                match decode_pair_from_slice(data.as_slice()) {
                    Err(e) => PairStep::Failed(RelayError::Encoding(e)),
                    Ok(response) => {
                        if same_token(&response.token, token) && response.is_initiator == is_initiator {
                            PairStep::Paired(PairResponse { remote_id: response.id })
                        } else {
                            PairStep::Wait
                        }
                    },
                }
            } else {
                PairStep::Wait
            }
        },
        Some(ChannelEvent::Closed { .. }) | None => PairStep::Failed(RelayError::ChannelClosed),
        Some(ChannelEvent::Opened { .. }) => PairStep::Wait,
    }
}

} // verus!
