//! Multiplexer frames: the control frames that open, close and reject
//! channels, the data frames that carry one message, and the batch frames
//! that carry several.
//!
//! Every frame starts with a compact uint channel id. Channel 0 is the control
//! session, whose second uint is the control type: 0 batch, 1 open, 2 reject,
//! 3 close. Any other channel id starts a data frame: the message type, then
//! the payload up to the end of the frame.
//!
//! ```text
//! open:    [0][1][localId][string protocol][buffer id][handshake bytes...]
//! close:   [0][3][localId]
//! reject:  [0][2][remoteId]
//! message: [channelId][messageType][payload...]
//! batch:   [0][0][firstChannelId][buffer msg]...[0][nextChannelId][buffer msg]...
//! ```
use vstd::prelude::*;
use vstd::string::StringExecFns;
use crate::compact_encoding::{
    buffer_size, decode_buffer, decode_string, decode_uint, enc_buffer, enc_string, enc_uint, encode_buffer,
    encode_string, encode_uint, encode_uint8, lemma_buffer_roundtrip, lemma_rest_skip, lemma_skip_skip,
    lemma_string_roundtrip, lemma_uint_roundtrip, lemma_wrote_trans, opt_bytes, opt_vec, parse_buffer,
    parse_string, parse_uint, preencode_buffer, preencode_string, preencode_uint, read_bytes, string_size,
    uint_size, utf8_lossy, write_bytes, wrote, EncodingError, State,
};
use crate::text::{decimal, decimal_string};

verus! {

/// Control type of a batch frame.
pub const CTRL_BATCH: u64 = 0;

/// Control type of an open frame.
pub const CTRL_OPEN: u64 = 1;

/// Control type of a reject frame.
pub const CTRL_REJECT: u64 = 2;

/// Control type of a close frame.
pub const CTRL_CLOSE: u64 = 3;

/// Errors of the multiplexer.
#[derive(Debug)]
pub enum ProtomuxError {
    /// A compact-encoding read failed.
    Encoding(EncodingError),
    /// The underlying stream is gone.
    StreamClosed,
    /// A frame broke the wire format.
    InvalidFrame(String),
    /// The channel was closed.
    ChannelClosed,
    /// No channel has this local id.
    ChannelNotFound(u64),
    /// An internal failure.
    Internal(String),
}

/// The plain values of a [`ProtomuxError`].
pub enum MuxErrorView {
    Encoding(EncodingError),
    StreamClosed,
    InvalidFrame(Seq<char>),
    ChannelClosed,
    ChannelNotFound(u64),
    Internal(Seq<char>),
}

impl View for ProtomuxError {
    type V = MuxErrorView;

    open spec fn view(&self) -> MuxErrorView {
        match self {
            ProtomuxError::Encoding(e) => MuxErrorView::Encoding(*e),
            ProtomuxError::StreamClosed => MuxErrorView::StreamClosed,
            ProtomuxError::InvalidFrame(m) => MuxErrorView::InvalidFrame(m@),
            ProtomuxError::ChannelClosed => MuxErrorView::ChannelClosed,
            ProtomuxError::ChannelNotFound(id) => MuxErrorView::ChannelNotFound(*id),
            ProtomuxError::Internal(m) => MuxErrorView::Internal(m@),
        }
    }
}

/// Result type of the multiplexer.
pub type Result<T> = core::result::Result<T, ProtomuxError>;

// ── Frame bytes ─────────────────────────────────────────────────────────────

/// The bytes of an optional trailing field: its bytes, or nothing.
pub open spec fn trailing(b: Option<Seq<u8>>) -> Seq<u8> {
    match b {
        Some(b) => b,
        None => Seq::empty(),
    }
}

/// The bytes of an open frame.
pub open spec fn enc_open(local_id: u64, protocol: Seq<char>, id: Option<Seq<u8>>, handshake: Option<Seq<u8>>) -> Seq<u8> {
    seq![0u8, 1u8] + enc_uint(local_id) + enc_string(protocol) + enc_buffer(id) + trailing(handshake)
}

/// The length of [`enc_open`].
pub open spec fn open_size(local_id: u64, protocol: Seq<char>, id: Option<Seq<u8>>, handshake: Option<Seq<u8>>) -> nat {
    2 + uint_size(local_id) + string_size(protocol) + buffer_size(id) + trailing(handshake).len()
}

/// The bytes of a close frame.
pub open spec fn enc_close(local_id: u64) -> Seq<u8> {
    seq![0u8, 3u8] + enc_uint(local_id)
}

/// The bytes of a reject frame.
pub open spec fn enc_reject(remote_id: u64) -> Seq<u8> {
    seq![0u8, 2u8] + enc_uint(remote_id)
}

/// The bytes of a data frame.
pub open spec fn enc_message(channel_id: u64, message_type: u64, payload: Seq<u8>) -> Seq<u8> {
    enc_uint(channel_id) + enc_uint(message_type) + payload
}

/// The separator before batch entry `i`: a zero byte and the new channel id
/// when the channel differs from that of the entry before it.
pub open spec fn batch_separator(es: Seq<(u64, Seq<u8>)>, i: int) -> Seq<u8> {
    if i > 0 && es[i].0 != es[i - 1].0 {
        seq![0u8] + enc_uint(es[i].0)
    } else {
        Seq::empty()
    }
}

/// The bytes of batch entry `i`: its separator, then its data as a buffer.
pub open spec fn batch_piece(es: Seq<(u64, Seq<u8>)>, i: int) -> Seq<u8> {
    batch_separator(es, i) + enc_buffer(Some(es[i].1))
}

/// The bytes of the first `n` batch entries.
pub open spec fn batch_body(es: Seq<(u64, Seq<u8>)>, n: nat) -> Seq<u8>
    decreases n,
{
    if n == 0 {
        Seq::empty()
    } else {
        batch_body(es, (n - 1) as nat) + batch_piece(es, n - 1)
    }
}

/// The bytes of a batch frame; no entries give no bytes at all.
pub open spec fn enc_batch(es: Seq<(u64, Seq<u8>)>) -> Seq<u8> {
    if es.len() == 0 {
        Seq::empty()
    } else {
        seq![0u8, 0u8] + enc_uint(es[0].0) + batch_body(es, es.len())
    }
}

/// The plain values of batch entries.
pub open spec fn entries_view(es: Seq<(u64, Vec<u8>)>) -> Seq<(u64, Seq<u8>)> {
    es.map_values(|e: (u64, Vec<u8>)| (e.0, e.1@))
}

/// A longer prefix of a batch body is no shorter.
pub proof fn lemma_batch_body_grows(es: Seq<(u64, Seq<u8>)>, i: nat, j: nat)
    requires
        i <= j,
    ensures
        batch_body(es, i).len() <= batch_body(es, j).len(),
    decreases j,
{
    if i < j {
        lemma_batch_body_grows(es, i, (j - 1) as nat);
    }
}

// ── Frame encoding ──────────────────────────────────────────────────────────

/// Encodes an open control frame.
pub fn encode_open(local_id: u64, protocol: &str, id: Option<&[u8]>, handshake: Option<&[u8]>) -> (b: Vec<u8>)
    requires
        open_size(local_id, protocol@, opt_bytes(id), opt_bytes(handshake)) <= usize::MAX,
    ensures
        b@ == enc_open(local_id, protocol@, opt_bytes(id), opt_bytes(handshake)),
{
    let mut state = State::new();
    state.end = 2;
    preencode_uint(&mut state, local_id);
    preencode_string(&mut state, protocol);
    preencode_buffer(&mut state, id);
    match handshake {
        Some(hs) => {
            state.end = state.end + hs.len();
        },
        None => {},
    }
    state.allocate();
    proof {
        lemma_uint_roundtrip(local_id, Seq::empty());
        lemma_string_roundtrip(protocol@, Seq::empty());
    }
    let ghost s0 = state;
    encode_uint8(&mut state, 0);
    let ghost s1 = state;
    encode_uint8(&mut state, 1);
    let ghost s2 = state;
    encode_uint(&mut state, local_id);
    let ghost s3 = state;
    encode_string(&mut state, protocol);
    let ghost s4 = state;
    proof {
        lemma_uint_roundtrip(local_id, Seq::empty());
        lemma_string_roundtrip(protocol@, Seq::empty());
        lemma_wrote_trans(s0, s1, s2, seq![0u8], seq![1u8]);
        assert(seq![0u8] + seq![1u8] =~= seq![0u8, 1u8]);
        lemma_wrote_trans(s0, s2, s3, seq![0u8, 1u8], enc_uint(local_id));
        lemma_wrote_trans(s0, s3, s4, seq![0u8, 1u8] + enc_uint(local_id), enc_string(protocol@));
    }
    encode_buffer(&mut state, id);
    let ghost s5 = state;
    proof {
        let p = seq![0u8, 1u8] + enc_uint(local_id) + enc_string(protocol@);
        match id {
            Some(b) => {
                lemma_uint_roundtrip(b@.len() as u64, Seq::empty());
            },
            None => {},
        }
        lemma_wrote_trans(s0, s4, s5, p, enc_buffer(opt_bytes(id)));
    }
    match handshake {
        Some(hs) => {
            write_bytes(&mut state, hs);
            proof {
                let p = seq![0u8, 1u8] + enc_uint(local_id) + enc_string(protocol@) + enc_buffer(opt_bytes(id));
                lemma_wrote_trans(s0, s5, state, p, hs@);
            }
        },
        None => {
            proof {
                assert(enc_open(local_id, protocol@, opt_bytes(id), opt_bytes(handshake)) =~= seq![0u8, 1u8]
                    + enc_uint(local_id) + enc_string(protocol@) + enc_buffer(opt_bytes(id)));
            }
        },
    }
    proof {
        assert(state.buffer@ =~= enc_open(local_id, protocol@, opt_bytes(id), opt_bytes(handshake)));
    }
    state.buffer
}

/// Encodes a two-byte control header and one uint.
fn encode_control(kind: u8, n: u64) -> (b: Vec<u8>)
    ensures
        b@ == seq![0u8, kind] + enc_uint(n),
{
    let mut state = State::new();
    state.end = 2;
    preencode_uint(&mut state, n);
    state.allocate();
    let ghost s0 = state;
    encode_uint8(&mut state, 0);
    let ghost s1 = state;
    encode_uint8(&mut state, kind);
    let ghost s2 = state;
    encode_uint(&mut state, n);
    proof {
        lemma_uint_roundtrip(n, Seq::empty());
        lemma_wrote_trans(s0, s1, s2, seq![0u8], seq![kind]);
        assert(seq![0u8] + seq![kind] =~= seq![0u8, kind]);
        lemma_wrote_trans(s0, s2, state, seq![0u8, kind], enc_uint(n));
        assert(state.buffer@ =~= seq![0u8, kind] + enc_uint(n));
    }
    state.buffer
}

/// Encodes a close control frame.
pub fn encode_close(local_id: u64) -> (b: Vec<u8>)
    ensures
        b@ == enc_close(local_id),
{
    encode_control(3, local_id)
}

/// Encodes a reject control frame.
pub fn encode_reject(remote_id: u64) -> (b: Vec<u8>)
    ensures
        b@ == enc_reject(remote_id),
{
    encode_control(2, remote_id)
}

/// Encodes a data frame (not batched).
pub fn encode_message(channel_id: u64, message_type: u64, payload: &[u8]) -> (b: Vec<u8>)
    requires
        uint_size(channel_id) + uint_size(message_type) + payload@.len() <= usize::MAX,
    ensures
        b@ == enc_message(channel_id, message_type, payload@),
{
    let mut state = State::new();
    preencode_uint(&mut state, channel_id);
    preencode_uint(&mut state, message_type);
    state.end = state.end + payload.len();
    state.allocate();
    proof {
        lemma_uint_roundtrip(channel_id, Seq::empty());
        lemma_uint_roundtrip(message_type, Seq::empty());
    }
    let ghost s0 = state;
    encode_uint(&mut state, channel_id);
    let ghost s1 = state;
    encode_uint(&mut state, message_type);
    let ghost s2 = state;
    proof {
        lemma_uint_roundtrip(channel_id, Seq::empty());
        lemma_uint_roundtrip(message_type, Seq::empty());
        lemma_wrote_trans(s0, s1, s2, enc_uint(channel_id), enc_uint(message_type));
    }
    write_bytes(&mut state, payload);
    proof {
        lemma_wrote_trans(s0, s2, state, enc_uint(channel_id) + enc_uint(message_type), payload@);
        assert(state.buffer@ =~= enc_message(channel_id, message_type, payload@));
    }
    state.buffer
}

/// Encodes a batch frame from `(channel id, inner message)` entries, where an
/// inner message is its type as a uint followed by its payload. Entries on the
/// same channel as the one before them share its channel id. No entries give
/// an empty frame.
pub fn encode_batch(entries: &[(u64, Vec<u8>)]) -> (b: Vec<u8>)
    requires
        entries@.len() > 0 ==> 2 + uint_size(entries@[0].0) + batch_body(entries_view(entries@), entries@.len()).len()
            <= usize::MAX,
    ensures
        b@ == enc_batch(entries_view(entries@)),
{
    let ghost es = entries_view(entries@);
    if entries.len() == 0 {
        return Vec::new();
    }
    let mut state = State::new();
    state.end = 2;
    preencode_uint(&mut state, entries[0].0);
    let ghost head = 2 + uint_size(entries@[0].0);
    let mut prev_id: u64 = entries[0].0;
    let mut i: usize = 0;
    while i < entries.len()
        invariant
            es == entries_view(entries@),
            0 < entries@.len(),
            i <= entries@.len(),
            head == 2 + uint_size(es[0].0),
            head + batch_body(es, entries@.len() as nat).len() <= usize::MAX,
            state.start == 0,
            state.buffer@.len() == 0,
            state.end == head + batch_body(es, i as nat).len(),
            prev_id == (if i == 0 { es[0].0 } else { es[i - 1].0 }),
        decreases entries@.len() - i,
    {
        proof {
            lemma_batch_body_grows(es, (i + 1) as nat, entries@.len() as nat);
            assert(batch_body(es, (i + 1) as nat) == batch_body(es, i as nat) + batch_piece(es, i as int));
            lemma_uint_roundtrip(es[i as int].0, Seq::empty());
            lemma_uint_roundtrip(es[i as int].1.len() as u64, Seq::empty());
        }
        let channel_id = entries[i].0;
        if channel_id != prev_id {
            state.end = state.end + 1;
            preencode_uint(&mut state, channel_id);
            prev_id = channel_id;
        }
        preencode_buffer(&mut state, Some(entries[i].1.as_slice()));
        i = i + 1;
    }
    state.allocate();
    let ghost s0 = state;
    encode_uint8(&mut state, 0);
    let ghost s1 = state;
    encode_uint8(&mut state, 0);
    let ghost s2 = state;
    prev_id = entries[0].0;
    encode_uint(&mut state, prev_id);
    proof {
        lemma_uint_roundtrip(prev_id, Seq::empty());
        lemma_wrote_trans(s0, s1, s2, seq![0u8], seq![0u8]);
        assert(seq![0u8] + seq![0u8] =~= seq![0u8, 0u8]);
        lemma_wrote_trans(s0, s2, state, seq![0u8, 0u8], enc_uint(prev_id));
        assert(batch_body(es, 0) =~= Seq::<u8>::empty());
        assert(seq![0u8, 0u8] + enc_uint(prev_id) =~= seq![0u8, 0u8] + enc_uint(prev_id) + batch_body(es, 0));
    }
    let mut i: usize = 0;
    while i < entries.len()
        invariant
            es == entries_view(entries@),
            0 < entries@.len(),
            i <= entries@.len(),
            head == 2 + uint_size(es[0].0),
            s0.start == 0,
            s0.end == head + batch_body(es, entries@.len() as nat).len(),
            s0.buffer@.len() == s0.end,
            wrote(s0, state, seq![0u8, 0u8] + enc_uint(es[0].0) + batch_body(es, i as nat)),
            prev_id == (if i == 0 { es[0].0 } else { es[i - 1].0 }),
        decreases entries@.len() - i,
    {
        let ghost si = state;
        let ghost pre = seq![0u8, 0u8] + enc_uint(es[0].0) + batch_body(es, i as nat);
        proof {
            lemma_batch_body_grows(es, (i + 1) as nat, entries@.len() as nat);
            assert(batch_body(es, (i + 1) as nat) == batch_body(es, i as nat) + batch_piece(es, i as int));
            lemma_uint_roundtrip(es[i as int].0, Seq::empty());
            lemma_uint_roundtrip(es[i as int].1.len() as u64, Seq::empty());
            lemma_uint_roundtrip(es[0].0, Seq::empty());
        }
        let channel_id = entries[i].0;
        if channel_id != prev_id {
            encode_uint8(&mut state, 0);
            let ghost sa = state;
            encode_uint(&mut state, channel_id);
            prev_id = channel_id;
            proof {
                lemma_wrote_trans(si, sa, state, seq![0u8], enc_uint(channel_id));
            }
        } else {
            proof {
                crate::compact_encoding::lemma_wrote_nothing(si);
            }
        }
        let ghost sb = state;
        proof {
            assert(batch_separator(es, i as int) == (if channel_id != (if i == 0 { es[0].0 } else { es[i - 1].0 }) {
                seq![0u8] + enc_uint(channel_id)
            } else {
                Seq::<u8>::empty()
            }));
            assert(wrote(si, sb, batch_separator(es, i as int)));
        }
        encode_buffer(&mut state, Some(entries[i].1.as_slice()));
        proof {
            lemma_wrote_trans(si, sb, state, batch_separator(es, i as int), enc_buffer(Some(es[i as int].1)));
            lemma_wrote_trans(s0, si, state, pre, batch_piece(es, i as int));
            assert(pre + batch_piece(es, i as int) =~= seq![0u8, 0u8] + enc_uint(es[0].0) + batch_body(
                es,
                (i + 1) as nat,
            ));
        }
        i = i + 1;
    }
    proof {
        assert(state.buffer@ =~= enc_batch(es));
    }
    state.buffer
}

// ── Frame decoding ──────────────────────────────────────────────────────────

/// A decoded control frame.
#[derive(Debug, Clone, PartialEq)]
pub enum ControlFrame {
    Open { local_id: u64, protocol: String, id: Option<Vec<u8>>, handshake_state: Option<Vec<u8>> },
    Close { local_id: u64 },
    Reject { remote_id: u64 },
}

/// One message of a decoded batch: its channel and its inner bytes (message
/// type and payload).
#[derive(Debug, Clone, PartialEq)]
pub struct BatchItem {
    pub channel_id: u64,
    pub data: Vec<u8>,
}

/// A decoded frame.
#[derive(Debug, Clone, PartialEq)]
pub enum DecodedFrame {
    /// A control message (open, close or reject).
    Control(ControlFrame),
    /// A batch of channel messages.
    Batch(Vec<BatchItem>),
    /// One data message on a channel.
    Message { channel_id: u64, message_type: u64, payload: Vec<u8> },
}

/// A decoded frame as plain values.
pub enum FrameView {
    Open { local_id: u64, protocol: Seq<char>, id: Option<Seq<u8>>, handshake_state: Option<Seq<u8>> },
    Close { local_id: u64 },
    Reject { remote_id: u64 },
    Batch(Seq<(u64, Seq<u8>)>),
    Message { channel_id: u64, message_type: u64, payload: Seq<u8> },
}

/// The plain values of batch items.
pub open spec fn items_view(items: Seq<BatchItem>) -> Seq<(u64, Seq<u8>)> {
    items.map_values(|b: BatchItem| (b.channel_id, b.data@))
}

impl View for DecodedFrame {
    type V = FrameView;

    open spec fn view(&self) -> FrameView {
        match self {
            DecodedFrame::Control(ControlFrame::Open { local_id, protocol, id, handshake_state }) => FrameView::Open {
                local_id: *local_id,
                protocol: protocol@,
                id: opt_vec(*id),
                handshake_state: opt_vec(*handshake_state),
            },
            DecodedFrame::Control(ControlFrame::Close { local_id }) => FrameView::Close { local_id: *local_id },
            DecodedFrame::Control(ControlFrame::Reject { remote_id }) => FrameView::Reject { remote_id: *remote_id },
            DecodedFrame::Batch(items) => FrameView::Batch(items_view(items@)),
            DecodedFrame::Message { channel_id, message_type, payload } => FrameView::Message {
                channel_id: *channel_id,
                message_type: *message_type,
                payload: payload@,
            },
        }
    }
}

/// What a frame reads as: the frame or the error, as plain values.
pub type FrameResult = core::result::Result<FrameView, MuxErrorView>;

/// The plain values of a decoder's result.
pub open spec fn frame_result(r: Result<DecodedFrame>) -> FrameResult {
    match r {
        Ok(f) => Ok(f@),
        Err(e) => Err(e@),
    }
}

/// `xs` in front of the entries of `r`, or the error of `r`.
pub open spec fn prepend(xs: Seq<(u64, Seq<u8>)>, r: core::result::Result<Seq<(u64, Seq<u8>)>, MuxErrorView>) -> core::result::Result<
    Seq<(u64, Seq<u8>)>,
    MuxErrorView,
> {
    match r {
        Ok(ys) => Ok(xs + ys),
        Err(e) => Err(e),
    }
}

/// A compact uint that reads takes at least one byte and no more than there are.
pub proof fn lemma_parse_uint_consumes(s: Seq<u8>)
    ensures
        parse_uint(s) matches Ok((_v, k)) ==> 1 <= k <= s.len(),
{
}

/// Reads the entries of a batch after its first channel id, on channel `cur`:
/// each a length and that many bytes, where a zero length switches to the
/// channel whose id follows.
pub open spec fn parse_batch(t: Seq<u8>, cur: u64) -> core::result::Result<Seq<(u64, Seq<u8>)>, MuxErrorView>
    decreases t.len(),
{
    if t.len() == 0 {
        Ok(Seq::empty())
    } else {
        match parse_uint(t) {
            Err(e) => Err(MuxErrorView::Encoding(e)),
            Ok((len, k)) => {
                proof {
                    lemma_parse_uint_consumes(t);
                }
                if len == 0 {
                    match parse_uint(t.skip(k as int)) {
                        Err(e) => Err(MuxErrorView::Encoding(e)),
                        Ok((c, k2)) => {
                            proof {
                                lemma_parse_uint_consumes(t.skip(k as int));
                            }
                            parse_batch(t.skip((k + k2) as int), c)
                        },
                    }
                } else if len > t.len() - k {
                    Err(MuxErrorView::InvalidFrame("batch item overflows frame"@))
                } else {
                    prepend(
                        seq![(cur, t.skip(k as int).take(len as int))],
                        parse_batch(t.skip(k + len), cur),
                    )
                }
            },
        }
    }
}

/// The batch frame of `r`.
pub open spec fn batch_frame(r: core::result::Result<Seq<(u64, Seq<u8>)>, MuxErrorView>) -> FrameResult {
    match r {
        Ok(es) => Ok(FrameView::Batch(es)),
        Err(e) => Err(e),
    }
}

/// Reads the fields of an open frame after its control type; whatever
/// follows the id is the handshake state.
pub open spec fn parse_open(u: Seq<u8>) -> FrameResult {
    match parse_uint(u) {
        Err(e) => Err(MuxErrorView::Encoding(e)),
        Ok((local_id, k1)) => match parse_string(u.skip(k1 as int)) {
            Err(e) => Err(MuxErrorView::Encoding(e)),
            Ok((protocol, k2)) => match parse_buffer(u.skip((k1 + k2) as int)) {
                Err(e) => Err(MuxErrorView::Encoding(e)),
                Ok((id, k3)) => {
                    let rest = u.skip((k1 + k2 + k3) as int);
                    Ok(
                        FrameView::Open {
                            local_id,
                            protocol,
                            id,
                            handshake_state: if rest.len() > 0 {
                                Some(rest)
                            } else {
                                None
                            },
                        },
                    )
                },
            },
        },
    }
}

/// The message of an unknown control type.
pub open spec fn unknown_control(t: u64) -> Seq<char> {
    "unknown control type: "@ + decimal(t as nat)
}

/// Reads the rest of a control frame of type `ty`.
pub open spec fn control_body(ty: u64, u: Seq<u8>) -> FrameResult {
    if ty == CTRL_OPEN {
        parse_open(u)
    } else if ty == CTRL_CLOSE {
        match parse_uint(u) {
            Err(e) => Err(MuxErrorView::Encoding(e)),
            Ok((id, _k)) => Ok(FrameView::Close { local_id: id }),
        }
    } else if ty == CTRL_REJECT {
        match parse_uint(u) {
            Err(e) => Err(MuxErrorView::Encoding(e)),
            Ok((id, _k)) => Ok(FrameView::Reject { remote_id: id }),
        }
    } else if ty == CTRL_BATCH {
        match parse_uint(u) {
            Err(e) => Err(MuxErrorView::Encoding(e)),
            Ok((first, k2)) => batch_frame(parse_batch(u.skip(k2 as int), first)),
        }
    } else {
        Err(MuxErrorView::InvalidFrame(unknown_control(ty)))
    }
}

/// Reads a control frame after its channel id 0.
pub open spec fn parse_control(t: Seq<u8>) -> FrameResult {
    match parse_uint(t) {
        Err(e) => Err(MuxErrorView::Encoding(e)),
        Ok((ty, k)) => control_body(ty, t.skip(k as int)),
    }
}

/// Reads a whole frame.
pub open spec fn parse_frame(s: Seq<u8>) -> FrameResult {
    if s.len() == 0 {
        Err(MuxErrorView::InvalidFrame("empty frame"@))
    } else {
        match parse_uint(s) {
            Err(e) => Err(MuxErrorView::Encoding(e)),
            Ok((channel_id, k1)) => {
                let t = s.skip(k1 as int);
                if channel_id == 0 {
                    parse_control(t)
                } else {
                    match parse_uint(t) {
                        Err(e) => Err(MuxErrorView::Encoding(e)),
                        Ok((message_type, k2)) => Ok(
                            FrameView::Message { channel_id, message_type, payload: t.skip(k2 as int) },
                        ),
                    }
                }
            },
        }
    }
}

/// The message of an unknown control type: the text, then `t` in decimal.
fn unknown_control_message(t: u64) -> (m: String)
    ensures
        m@ == unknown_control(t),
{
    let mut m = "unknown control type: ".to_owned();
    m.append(decimal_string(t).as_str());
    m
}

/// Reads a compact uint, with the error of the multiplexer.
pub(crate) fn read_uint(state: &mut State) -> (r: Result<u64>)
    requires
        old(state).readable(),
    ensures
        final(state).buffer@ == old(state).buffer@,
        final(state).end == old(state).end,
        final(state).readable(),
        match r {
            Ok(v) => parse_uint(old(state).rest()) matches Ok((w, k)) && w == v && final(state).start
                == old(state).start + k && final(state).rest() == old(state).rest().skip(k as int),
            Err(e) => parse_uint(old(state).rest()) matches Err(f) && e@ == MuxErrorView::Encoding(f),
        },
{
    let ghost s0 = *state;
    match decode_uint(state) {
        Ok(v) => {
            proof {
                lemma_parse_uint_consumes(s0.rest());
                lemma_rest_skip(s0, *state, (state.start - s0.start) as nat);
            }
            Ok(v)
        },
        Err(e) => Err(ProtomuxError::Encoding(e)),
    }
}

/// Reads the fields of an open frame after its control type.
fn decode_open_fields(state: &mut State) -> (r: Result<DecodedFrame>)
    requires
        old(state).readable(),
    ensures
        frame_result(r) == parse_open(old(state).rest()),
{
    let ghost s0 = *state;
    let ghost u = state.rest();
    let local_id = read_uint(state)?;
    let ghost s1 = *state;
    let ghost k1 = (s1.start - s0.start) as nat;
    let protocol = match decode_string(state) {
        Ok(p) => p,
        Err(e) => return Err(ProtomuxError::Encoding(e)),
    };
    let ghost s2 = *state;
    let ghost k2 = (s2.start - s1.start) as nat;
    proof {
        lemma_rest_skip(s1, s2, k2);
        lemma_skip_skip(u, k1, k2);
    }
    let id = match decode_buffer(state) {
        Ok(b) => b,
        Err(e) => return Err(ProtomuxError::Encoding(e)),
    };
    let ghost s3 = *state;
    let ghost k3 = (s3.start - s2.start) as nat;
    proof {
        lemma_rest_skip(s2, s3, k3);
        lemma_skip_skip(u, k1 + k2, k3);
    }
    let handshake_state = if state.start < state.end {
        let n = state.end - state.start;
        Some(read_bytes(state, n))
    } else {
        None
    };
    proof {
        assert(s3.rest().take((s3.end - s3.start) as int) =~= s3.rest());
    }
    Ok(DecodedFrame::Control(ControlFrame::Open { local_id, protocol, id, handshake_state }))
}

/// Putting `xs` and then `x` in front is putting `xs.push(x)` in front.
proof fn lemma_prepend_push(
    xs: Seq<(u64, Seq<u8>)>,
    x: (u64, Seq<u8>),
    r: core::result::Result<Seq<(u64, Seq<u8>)>, MuxErrorView>,
)
    ensures
        prepend(xs, prepend(seq![x], r)) == prepend(xs.push(x), r),
{
    match r {
        Ok(ys) => {
            assert(xs + (seq![x] + ys) =~= xs.push(x) + ys);
        },
        Err(_) => {},
    }
}

/// Reads the entries of a batch up to the end, on channel `first` to begin with.
fn decode_batch_items(state: &mut State, first: u64) -> (r: Result<DecodedFrame>)
    requires
        old(state).readable(),
    ensures
        frame_result(r) == batch_frame(parse_batch(old(state).rest(), first)),
{
    let ghost t0 = state.rest();
    let mut items: Vec<BatchItem> = Vec::new();
    let mut current_channel = first;
    let end = state.end;
    proof {
        assert(items_view(items@) =~= Seq::<(u64, Seq<u8>)>::empty());
        assert(prepend(Seq::empty(), parse_batch(t0, first)) == parse_batch(t0, first)) by {
            match parse_batch(t0, first) {
                Ok(ys) => {
                    assert(Seq::<(u64, Seq<u8>)>::empty() + ys =~= ys);
                },
                Err(_) => {},
            }
        }
    }
    while state.start < end
        invariant
            state.readable(),
            state.end == end,
            t0 == old(state).rest(),
            parse_batch(t0, first) == prepend(items_view(items@), parse_batch(state.rest(), current_channel)),
        decreases end - state.start,
    {
        let ghost t = state.rest();
        let len = match read_uint(state) {
            Ok(v) => v,
            Err(e) => {
                proof {
                    assert(parse_batch(t, current_channel) == Err::<Seq<(u64, Seq<u8>)>, MuxErrorView>(e@));
                }
                return Err(e);
            },
        };
        let ghost k = (t.len() - state.rest().len()) as nat;
        if len == 0 {
            let ghost s1 = *state;
            let c = match read_uint(state) {
                Ok(v) => v,
                Err(e) => {
                    proof {
                        assert(parse_batch(t, current_channel) == Err::<Seq<(u64, Seq<u8>)>, MuxErrorView>(e@));
                    }
                    return Err(e);
                },
            };
            proof {
                lemma_skip_skip(t, k, (s1.rest().len() - state.rest().len()) as nat);
            }
            current_channel = c;
            continue;
        }
        let avail = state.end - state.start;
        if len > avail as u64 {
            let e = ProtomuxError::InvalidFrame("batch item overflows frame".to_owned());
            proof {
                assert(parse_batch(t, current_channel) == Err::<Seq<(u64, Seq<u8>)>, MuxErrorView>(e@));
            }
            return Err(e);
        }
        let data = read_bytes(state, len as usize);
        let ghost item = (current_channel, data@);
        proof {
            lemma_skip_skip(t, k, len as nat);
            assert(state.rest() =~= t.skip(k + len));
            lemma_prepend_push(items_view(items@), item, parse_batch(state.rest(), current_channel));
        }
        let ghost before = items@;
        items.push(BatchItem { channel_id: current_channel, data });
        proof {
            assert(items_view(items@) =~= items_view(before).push(item));
        }
    }
    proof {
        assert(state.rest().len() == 0);
        assert(items_view(items@) + Seq::<(u64, Seq<u8>)>::empty() =~= items_view(items@));
    }
    Ok(DecodedFrame::Batch(items))
}

/// Reads a control frame after its channel id 0.
fn decode_control(state: &mut State) -> (r: Result<DecodedFrame>)
    requires
        old(state).readable(),
    ensures
        frame_result(r) == parse_control(old(state).rest()),
{
    let ctrl_type = read_uint(state)?;
    if ctrl_type == CTRL_OPEN {
        decode_open_fields(state)
    } else if ctrl_type == CTRL_CLOSE {
        let local_id = read_uint(state)?;
        Ok(DecodedFrame::Control(ControlFrame::Close { local_id }))
    } else if ctrl_type == CTRL_REJECT {
        let remote_id = read_uint(state)?;
        Ok(DecodedFrame::Control(ControlFrame::Reject { remote_id }))
    } else if ctrl_type == CTRL_BATCH {
        let first = read_uint(state)?;
        decode_batch_items(state, first)
    } else {
        Err(ProtomuxError::InvalidFrame(unknown_control_message(ctrl_type)))
    }
}

/// Decodes a frame from the wire.
pub fn decode_frame(data: &[u8]) -> (r: Result<DecodedFrame>)
    ensures
        frame_result(r) == parse_frame(data@),
{
    if data.len() == 0 {
        return Err(ProtomuxError::InvalidFrame("empty frame".to_owned()));
    }
    let mut state = State::from_buffer(data);
    proof {
        assert(state.rest() =~= data@);
    }
    let channel_id = read_uint(&mut state)?;
    if channel_id == 0 {
        decode_control(&mut state)
    } else {
        let message_type = read_uint(&mut state)?;
        let n = state.end - state.start;
        let payload = read_bytes(&mut state, n);
        proof {
            assert(payload@ =~= data@.skip((data@.len() - n) as int));
        }
        Ok(DecodedFrame::Message { channel_id, message_type, payload })
    }
}

// ── Channel events ──────────────────────────────────────────────────────────

/// What a channel learns from the multiplexer.
#[derive(Debug)]
pub enum ChannelEvent {
    /// The remote side opened the channel, with its handshake data if any.
    Opened { handshake: Option<Vec<u8>> },
    /// A message arrived on the channel.
    Message { message_type: u32, data: Vec<u8> },
    /// The channel was closed.
    Closed { is_remote: bool },
}

// ── Laws ────────────────────────────────────────────────────────────────────

/// An optional field as it reads back: a present, non-empty one as itself,
/// any other as absent.
pub open spec fn nonempty(b: Option<Seq<u8>>) -> Option<Seq<u8>> {
    match b {
        Some(x) => if x.len() == 0 {
            None
        } else {
            Some(x)
        },
        None => None,
    }
}

/// The first two bytes of a control frame read as channel 0 and the control type.
proof fn lemma_control_head(kind: u8, body: Seq<u8>)
    requires
        kind <= 3,
    ensures
        parse_frame(seq![0u8, kind] + body) == control_body(kind as u64, body),
{
    let s = seq![0u8, kind] + body;
    assert(s.skip(1) =~= seq![kind] + body);
    assert((seq![kind] + body).skip(1) =~= body);
}

/// The fields of an open frame read back as themselves.
proof fn lemma_open_fields(local_id: u64, protocol: Seq<char>, id: Option<Seq<u8>>, handshake: Option<Seq<u8>>)
    requires
        vstd::utf8::encode_utf8(protocol).len() <= usize::MAX,
        id matches Some(x) ==> x.len() <= usize::MAX,
    ensures
        parse_open(enc_uint(local_id) + (enc_string(protocol) + (enc_buffer(id) + trailing(handshake))))
            == Ok::<FrameView, MuxErrorView>(
            FrameView::Open {
                local_id,
                protocol: utf8_lossy(vstd::utf8::encode_utf8(protocol)),
                id: nonempty(id),
                handshake_state: nonempty(handshake),
            },
        ),
{
    let a = enc_uint(local_id);
    let b = enc_string(protocol);
    let c = enc_buffer(id);
    let d = trailing(handshake);
    let body = a + (b + (c + d));
    lemma_uint_roundtrip(local_id, b + (c + d));
    crate::compact_encoding::lemma_skip_append(a, b + (c + d));
    lemma_string_roundtrip(protocol, c + d);
    crate::compact_encoding::lemma_skip_append(b, c + d);
    lemma_skip_skip(body, a.len(), b.len());
    lemma_buffer_roundtrip(id, d);
    crate::compact_encoding::lemma_skip_append(c, d);
    lemma_skip_skip(body, a.len() + b.len(), c.len());
    assert(d.len() == 0 ==> nonempty(handshake) is None);
}

/// An open frame reads back as its fields; an empty id or handshake reads
/// back as absent, and the protocol as the lenient decoding of its UTF-8.
#[verifier::rlimit(40)]
pub proof fn lemma_open_roundtrip(local_id: u64, protocol: Seq<char>, id: Option<Seq<u8>>, handshake: Option<Seq<u8>>)
    requires
        vstd::utf8::encode_utf8(protocol).len() <= usize::MAX,
        id matches Some(x) ==> x.len() <= usize::MAX,
    ensures
        parse_frame(enc_open(local_id, protocol, id, handshake)) == Ok::<FrameView, MuxErrorView>(
            FrameView::Open {
                local_id,
                protocol: utf8_lossy(vstd::utf8::encode_utf8(protocol)),
                id: nonempty(id),
                handshake_state: nonempty(handshake),
            },
        ),
{
    let body = enc_uint(local_id) + (enc_string(protocol) + (enc_buffer(id) + trailing(handshake)));
    assert(enc_open(local_id, protocol, id, handshake) =~= seq![0u8, 1u8] + body);
    lemma_control_head(1, body);
    lemma_open_fields(local_id, protocol, id, handshake);
}

/// A close frame reads back as its id.
pub proof fn lemma_close_roundtrip(local_id: u64)
    ensures
        parse_frame(enc_close(local_id)) == Ok::<FrameView, MuxErrorView>(FrameView::Close { local_id }),
{
    lemma_control_head(3, enc_uint(local_id));
    lemma_uint_roundtrip(local_id, Seq::empty());
    assert(enc_uint(local_id) + Seq::empty() =~= enc_uint(local_id));
}

/// A reject frame reads back as its id.
pub proof fn lemma_reject_roundtrip(remote_id: u64)
    ensures
        parse_frame(enc_reject(remote_id)) == Ok::<FrameView, MuxErrorView>(FrameView::Reject { remote_id }),
{
    lemma_control_head(2, enc_uint(remote_id));
    lemma_uint_roundtrip(remote_id, Seq::empty());
    assert(enc_uint(remote_id) + Seq::empty() =~= enc_uint(remote_id));
}

/// A data frame on a channel other than 0 reads back as its fields.
pub proof fn lemma_message_roundtrip(channel_id: u64, message_type: u64, payload: Seq<u8>)
    requires
        channel_id != 0,
    ensures
        parse_frame(enc_message(channel_id, message_type, payload)) == Ok::<FrameView, MuxErrorView>(
            FrameView::Message { channel_id, message_type, payload },
        ),
{
    let a = enc_uint(channel_id);
    let b = enc_uint(message_type);
    let s = a + (b + payload);
    assert(enc_message(channel_id, message_type, payload) =~= s);
    lemma_uint_roundtrip(channel_id, b + payload);
    crate::compact_encoding::lemma_skip_append(a, b + payload);
    lemma_uint_roundtrip(message_type, payload);
    crate::compact_encoding::lemma_skip_append(b, payload);
    lemma_uint_roundtrip(channel_id, Seq::empty());
}

/// The bytes of batch entries `i` onwards.
pub open spec fn batch_tail(es: Seq<(u64, Seq<u8>)>, i: nat) -> Seq<u8>
    decreases es.len() - i,
{
    if i >= es.len() {
        Seq::empty()
    } else {
        batch_piece(es, i as int) + batch_tail(es, i + 1)
    }
}

/// The first `n` entries and the rest make the whole body.
proof fn lemma_body_tail(es: Seq<(u64, Seq<u8>)>, n: nat)
    requires
        n <= es.len(),
    ensures
        batch_body(es, n) + batch_tail(es, n) == batch_tail(es, 0),
    decreases n,
{
    if n > 0 {
        lemma_body_tail(es, (n - 1) as nat);
        assert(batch_tail(es, (n - 1) as nat) == batch_piece(es, n - 1) + batch_tail(es, n));
        assert(batch_body(es, n) + batch_tail(es, n) =~= batch_body(es, (n - 1) as nat) + batch_tail(es, (n - 1) as nat));
    } else {
        assert(batch_body(es, 0) + batch_tail(es, 0) =~= batch_tail(es, 0));
    }
}

/// Whether every entry of a batch has data, of a length that a uint holds.
pub open spec fn batch_entries_ok(es: Seq<(u64, Seq<u8>)>) -> bool {
    forall|i: int| 0 <= i < es.len() ==> 0 < (#[trigger] es[i]).1.len() <= u64::MAX
}

/// The channel that entry `i` of a batch is read on before its own separator.
pub open spec fn batch_prev(es: Seq<(u64, Seq<u8>)>, i: nat) -> u64 {
    if i == 0 {
        es[0].0
    } else {
        es[i - 1].0
    }
}

/// An entry's data as a buffer reads as one item on the current channel.
proof fn lemma_batch_item_step(data: Seq<u8>, rest: Seq<u8>, cur: u64)
    requires
        0 < data.len() <= u64::MAX,
    ensures
        parse_batch(enc_buffer(Some(data)) + rest, cur) == prepend(seq![(cur, data)], parse_batch(rest, cur)),
{
    let len = data.len() as u64;
    let item = enc_uint(len) + data;
    lemma_uint_roundtrip(len, data + rest);
    assert(item + rest =~= enc_uint(len) + (data + rest));
    crate::compact_encoding::lemma_skip_append(enc_uint(len), data + rest);
    assert((data + rest).take(data.len() as int) =~= data);
    assert((data + rest).skip(data.len() as int) =~= rest);
    lemma_skip_skip(item + rest, uint_size(len), data.len());
}

/// A zero byte and a channel id switch the channel of what follows.
proof fn lemma_batch_switch_step(c: u64, rest: Seq<u8>, cur: u64)
    ensures
        parse_batch(seq![0u8] + enc_uint(c) + rest, cur) == parse_batch(rest, c),
{
    let t = seq![0u8] + (enc_uint(c) + rest);
    assert(seq![0u8] + enc_uint(c) + rest =~= t);
    lemma_uint_roundtrip(0, enc_uint(c) + rest);
    assert(enc_uint(0) =~= seq![0u8]);
    crate::compact_encoding::lemma_skip_append(seq![0u8], enc_uint(c) + rest);
    lemma_uint_roundtrip(c, rest);
    crate::compact_encoding::lemma_skip_append(enc_uint(c), rest);
    lemma_skip_skip(t, 1, uint_size(c));
}

/// The entries from `i` onwards read back as themselves.
proof fn lemma_batch_tail_roundtrip(es: Seq<(u64, Seq<u8>)>, i: nat)
    requires
        0 < es.len(),
        i <= es.len(),
        batch_entries_ok(es),
    ensures
        parse_batch(batch_tail(es, i), batch_prev(es, i)) == Ok::<Seq<(u64, Seq<u8>)>, MuxErrorView>(es.skip(i as int)),
    decreases es.len() - i,
{
    if i == es.len() {
        assert(es.skip(i as int) =~= Seq::<(u64, Seq<u8>)>::empty());
    } else {
        lemma_batch_tail_roundtrip(es, i + 1);
        let data = es[i as int].1;
        let rest = batch_tail(es, i + 1);
        let cur = es[i as int].0;
        let item = enc_buffer(Some(data));
        assert(0 < data.len() <= u64::MAX);
        lemma_batch_item_step(data, rest, cur);
        assert(es.skip(i as int) =~= seq![(cur, data)] + es.skip((i + 1) as int));
        if i > 0 && cur != es[i - 1].0 {
            assert(batch_tail(es, i) =~= seq![0u8] + enc_uint(cur) + (item + rest));
            lemma_batch_switch_step(cur, item + rest, batch_prev(es, i));
        } else {
            assert(batch_tail(es, i) =~= item + rest);
        }
    }
}

/// A batch of entries that each have data reads back as those entries.
pub proof fn lemma_batch_roundtrip(es: Seq<(u64, Seq<u8>)>)
    requires
        0 < es.len(),
        batch_entries_ok(es),
    ensures
        parse_frame(enc_batch(es)) == Ok::<FrameView, MuxErrorView>(FrameView::Batch(es)),
{
    lemma_body_tail(es, es.len());
    assert(batch_tail(es, es.len()) =~= Seq::<u8>::empty());
    assert(batch_body(es, es.len()) =~= batch_tail(es, 0));
    let body = enc_uint(es[0].0) + batch_tail(es, 0);
    assert(enc_batch(es) =~= seq![0u8, 0u8] + body);
    lemma_control_head(0, body);
    lemma_uint_roundtrip(es[0].0, batch_tail(es, 0));
    crate::compact_encoding::lemma_skip_append(enc_uint(es[0].0), batch_tail(es, 0));
    lemma_batch_tail_roundtrip(es, 0);
    assert(es.skip(0) =~= es);
}

} // verus!
