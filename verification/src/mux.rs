//! The multiplexer's bookkeeping: which local channels exist, which remote
//! channels were announced, how the two sides are paired by protocol and id,
//! and what is batched while writes are corked.
//!
//! Each operation is a step from one state to the next that also hands back
//! what the caller must do: frames to write to the stream, events to deliver
//! to channels, and channels whose handles are released. The caller owns the
//! stream and the channels' queues; the decisions are made here.
//!
//! Channels are numbered from 1 on the wire; slot `n - 1` of the local table
//! holds local channel `n`, and slot `r - 1` of the remote table holds remote
//! channel `r`.
use vstd::prelude::*;
use vstd::string::StringExecFns;
use crate::compact_encoding::{read_bytes, enc_uint, opt_bytes, opt_vec, parse_uint, string_size, buffer_size, EncodingError, State};
use crate::hex::hex_text;
use crate::protomux::{
    batch_body, decode_frame, enc_batch, enc_close, enc_message, enc_open, enc_reject, encode_batch, encode_close,
    encode_message, encode_open, encode_reject, entries_view, parse_frame, trailing, ChannelEvent, ControlFrame,
    DecodedFrame, FrameView, MuxErrorView, ProtomuxError,
};
use crate::compact_encoding::uint_size;
use crate::text::same_str;

verus! {

// ── State ───────────────────────────────────────────────────────────────────

/// A channel this side opened.
pub struct LocalChannel {
    pub protocol: String,
    pub id: Option<Vec<u8>>,
    /// The remote channel it is paired with.
    pub remote_id: Option<u32>,
    /// Both sides have sent their open frame.
    pub opened: bool,
    pub closed: bool,
}

/// A channel the remote side announced with an open frame.
pub struct RemoteChannel {
    /// Its handshake data, handed over when it is paired.
    pub handshake_state: Option<Vec<u8>>,
    /// The slot of the local channel it is paired with.
    pub local_id: Option<u32>,
    /// Messages that arrived before a local channel was open for it.
    pub pending: Vec<(u64, Vec<u8>)>,
}

/// The channels of one protocol and id that wait for the other side.
pub struct ChannelInfo {
    pub key: String,
    /// Local channel ids whose open frame is not answered yet.
    pub outgoing: Vec<u32>,
    /// Remote channel ids whose open frame is not answered yet.
    pub incoming: Vec<u32>,
}

/// The multiplexer's bookkeeping.
pub struct MuxState {
    local: Vec<Option<LocalChannel>>,
    free_ids: Vec<u32>,
    remote: Vec<Option<RemoteChannel>>,
    infos: Vec<ChannelInfo>,
    cork_depth: u32,
    batch: Vec<(u64, Vec<u8>)>,
}

/// What the caller must do after a step.
#[derive(Debug)]
pub enum MuxAction {
    /// Write this frame to the stream.
    Write(Vec<u8>),
    /// Deliver this event to local channel `local_id`.
    Deliver { local_id: u32, event: ChannelEvent },
    /// Local channel `local_id` is gone: drop its event queue.
    Release { local_id: u32 },
}

// ── Views ───────────────────────────────────────────────────────────────────

/// A local channel as plain values.
#[verifier::ext_equal]
pub struct LocalView {
    pub protocol: Seq<char>,
    pub id: Option<Seq<u8>>,
    pub remote_id: Option<u32>,
    pub opened: bool,
    pub closed: bool,
}

/// A remote channel as plain values.
#[verifier::ext_equal]
pub struct RemoteView {
    pub handshake: Option<Seq<u8>>,
    pub local_id: Option<u32>,
    pub pending: Seq<(u64, Seq<u8>)>,
}

/// The waiting channels of one key as plain values.
#[verifier::ext_equal]
pub struct InfoView {
    pub outgoing: Seq<u32>,
    pub incoming: Seq<u32>,
}

/// The bookkeeping as plain values; `infos` maps a channel key to the
/// channels that wait under it.
#[verifier::ext_equal]
pub struct MuxView {
    pub local: Seq<Option<LocalView>>,
    pub free_ids: Seq<u32>,
    pub remote: Seq<Option<RemoteView>>,
    pub infos: Map<Seq<char>, InfoView>,
    pub cork_depth: u32,
    pub batch: Seq<(u64, Seq<u8>)>,
}

/// An action as plain values.
pub enum ActionView {
    Write(Seq<u8>),
    Opened { local_id: u32, handshake: Option<Seq<u8>> },
    Message { local_id: u32, message_type: u32, data: Seq<u8> },
    Closed { local_id: u32, is_remote: bool },
    Release { local_id: u32 },
}

impl View for LocalChannel {
    type V = LocalView;

    open spec fn view(&self) -> LocalView {
        LocalView {
            protocol: self.protocol@,
            id: opt_vec(self.id),
            remote_id: self.remote_id,
            opened: self.opened,
            closed: self.closed,
        }
    }
}

impl View for RemoteChannel {
    type V = RemoteView;

    open spec fn view(&self) -> RemoteView {
        RemoteView {
            handshake: opt_vec(self.handshake_state),
            local_id: self.local_id,
            pending: entries_view(self.pending@),
        }
    }
}

/// An optional local channel as plain values.
pub open spec fn local_view(c: Option<LocalChannel>) -> Option<LocalView> {
    match c {
        Some(c) => Some(c@),
        None => None,
    }
}

/// An optional remote channel as plain values.
pub open spec fn remote_view(c: Option<RemoteChannel>) -> Option<RemoteView> {
    match c {
        Some(c) => Some(c@),
        None => None,
    }
}

/// The waiting channels of an entry as plain values.
pub open spec fn info_view(f: ChannelInfo) -> InfoView {
    InfoView { outgoing: f.outgoing@, incoming: f.incoming@ }
}

/// The entries as a map from key to waiting channels.
pub open spec fn infos_map(s: Seq<ChannelInfo>) -> Map<Seq<char>, InfoView> {
    Map::new(
        |k: Seq<char>| exists|i: int| 0 <= i < s.len() && #[trigger] s[i].key@ == k,
        |k: Seq<char>| info_view(s[choose|i: int| 0 <= i < s.len() && #[trigger] s[i].key@ == k]),
    )
}

/// No two entries share a key.
pub open spec fn keys_distinct(s: Seq<ChannelInfo>) -> bool {
    forall|i: int, j: int| 0 <= i < s.len() && 0 <= j < s.len() && i != j ==> #[trigger] s[i].key@ != #[trigger] s[j].key@
}

/// An action as plain values.
pub open spec fn action_view(a: MuxAction) -> ActionView {
    match a {
        MuxAction::Write(b) => ActionView::Write(b@),
        MuxAction::Deliver { local_id, event: ChannelEvent::Opened { handshake } } => ActionView::Opened {
            local_id,
            handshake: opt_vec(handshake),
        },
        MuxAction::Deliver { local_id, event: ChannelEvent::Message { message_type, data } } => ActionView::Message {
            local_id,
            message_type,
            data: data@,
        },
        MuxAction::Deliver { local_id, event: ChannelEvent::Closed { is_remote } } => ActionView::Closed {
            local_id,
            is_remote,
        },
        MuxAction::Release { local_id } => ActionView::Release { local_id },
    }
}

/// Actions as plain values.
pub open spec fn actions_view(a: Seq<MuxAction>) -> Seq<ActionView> {
    a.map_values(|x: MuxAction| action_view(x))
}

impl View for MuxState {
    type V = MuxView;

    closed spec fn view(&self) -> MuxView {
        MuxView {
            local: self.local@.map_values(|c: Option<LocalChannel>| local_view(c)),
            free_ids: self.free_ids@,
            remote: self.remote@.map_values(|c: Option<RemoteChannel>| remote_view(c)),
            infos: infos_map(self.infos@),
            cork_depth: self.cork_depth,
            batch: entries_view(self.batch@),
        }
    }
}

// ── Well-formedness ─────────────────────────────────────────────────────────

/// Waiting local ids name existing slots; waiting remote ids are not 0.
pub open spec fn info_ok(f: InfoView, n: nat) -> bool {
    &&& forall|j: int| 0 <= j < f.outgoing.len() ==> 1 <= #[trigger] f.outgoing[j] <= n
    &&& forall|j: int| 0 <= j < f.incoming.len() ==> 1 <= #[trigger] f.incoming[j]
}

/// What every state of the bookkeeping satisfies: local ids fit in a `u32`,
/// free ids name existing slots, and every waiting list is [`info_ok`].
pub open spec fn mux_wf(v: MuxView) -> bool {
    &&& v.local.len() <= u32::MAX
    &&& forall|i: int| 0 <= i < v.free_ids.len() ==> #[trigger] v.free_ids[i] < v.local.len()
    &&& forall|k: Seq<char>| #[trigger] v.infos.contains_key(k) ==> info_ok(v.infos[k], v.local.len())
}

impl MuxState {
    /// The state is well formed.
    pub closed spec fn wf(&self) -> bool {
        &&& mux_wf(self@)
        &&& keys_distinct(self.infos@)
    }
}

// ── Steps ───────────────────────────────────────────────────────────────────

/// The key under which channels of a protocol and id are paired:
/// `"{protocol}##{hex of id}"`, with no hex digits for no id.
pub open spec fn channel_key(protocol: Seq<char>, id: Option<Seq<u8>>) -> Seq<char> {
    protocol + seq!['#', '#'] + hex_text(trailing(id))
}

/// The waiting channels under `key`, none if it has no entry.
pub open spec fn info_of(infos: Map<Seq<char>, InfoView>, key: Seq<char>) -> InfoView {
    if infos.contains_key(key) {
        infos[key]
    } else {
        InfoView { outgoing: Seq::empty(), incoming: Seq::empty() }
    }
}

/// Takes a slot for a new local channel: the last freed one, else a new one
/// at the end.
pub open spec fn alloc_slot(v: MuxView) -> (MuxView, u32) {
    if v.free_ids.len() > 0 {
        (MuxView { free_ids: v.free_ids.drop_last(), ..v }, v.free_ids.last())
    } else {
        (MuxView { local: v.local.push(None), ..v }, v.local.len() as u32)
    }
}

/// Buffered messages delivered to local channel `local_id`, in order.
pub open spec fn message_actions(local_id: u32, p: Seq<(u64, Seq<u8>)>) -> Seq<ActionView> {
    p.map_values(|e: (u64, Seq<u8>)| ActionView::Message { local_id, message_type: e.0 as u32, data: e.1 })
}

/// Opening a local channel: it takes a slot and sends its open frame. If the
/// remote side already announced a channel under the same key, the first
/// such channel is paired with it: the new channel is opened with its
/// handshake data and receives the messages buffered for it. Otherwise the
/// new channel waits under its key. The last component is the new channel's
/// local id.
pub open spec fn create_step(v: MuxView, protocol: Seq<char>, id: Option<Seq<u8>>, handshake: Option<Seq<u8>>) -> (
    MuxView,
    Seq<ActionView>,
    u32,
) {
    let (a, slot) = alloc_slot(v);
    let local_id = (slot + 1) as u32;
    let key = channel_key(protocol, id);
    let info = info_of(a.infos, key);
    let open = ActionView::Write(enc_open(local_id as u64, protocol, id, handshake));
    let fresh = LocalView { protocol, id, remote_id: None, opened: false, closed: false };
    if info.incoming.len() > 0 {
        let rid = info.incoming[0];
        let r = rid - 1;
        let paired = r < a.remote.len() && a.remote[r] is Some;
        let rc = a.remote[r]->0;
        let remote = if paired {
            a.remote.update(r, Some(RemoteView { handshake: None, local_id: Some(slot), pending: Seq::empty() }))
        } else {
            a.remote
        };
        let hs = if paired {
            rc.handshake
        } else {
            None
        };
        let pending = if paired {
            rc.pending
        } else {
            Seq::empty()
        };
        (
            MuxView {
                local: a.local.update(slot as int, Some(LocalView { remote_id: Some(rid), opened: true, ..fresh })),
                remote,
                infos: a.infos.insert(key, InfoView { outgoing: info.outgoing, incoming: info.incoming.drop_first() }),
                ..a
            },
            seq![open, ActionView::Opened { local_id, handshake: hs }] + message_actions(local_id, pending),
            local_id,
        )
    } else {
        (
            MuxView {
                local: a.local.update(slot as int, Some(fresh)),
                infos: a.infos.insert(key, InfoView { outgoing: info.outgoing.push(local_id), incoming: info.incoming }),
                ..a
            },
            seq![open],
            local_id,
        )
    }
}


/// Sending a message on local channel `local_id`: nothing if it has no
/// channel; while corked, the message type and payload join the batch;
/// otherwise a data frame is written.
pub open spec fn send_step(v: MuxView, local_id: u32, message_type: u32, data: Seq<u8>) -> (MuxView, Seq<ActionView>) {
    let i = local_id - 1;
    if i >= v.local.len() || v.local[i] is None {
        (v, Seq::empty())
    } else if v.cork_depth > 0 {
        (MuxView { batch: v.batch.push((local_id as u64, enc_uint(message_type as u64) + data)), ..v }, Seq::empty())
    } else {
        (v, seq![ActionView::Write(enc_message(local_id as u64, message_type as u64, data))])
    }
}

/// Closing local channel `local_id`: nothing if it has no slot or is closed
/// already; otherwise it learns that it was closed here, a close frame is
/// written, and its slot is freed.
pub open spec fn close_step(v: MuxView, local_id: u32) -> (MuxView, Seq<ActionView>) {
    let i = local_id - 1;
    if i >= v.local.len() {
        (v, Seq::empty())
    } else if v.local[i] matches Some(c) && c.closed {
        (v, Seq::empty())
    } else {
        let told = if v.local[i] is Some {
            seq![ActionView::Closed { local_id, is_remote: false }]
        } else {
            Seq::empty()
        };
        (
            MuxView { local: v.local.update(i, None), free_ids: v.free_ids.push(i as u32), ..v },
            told + seq![ActionView::Write(enc_close(local_id as u64)), ActionView::Release { local_id }],
        )
    }
}

/// Corking: one level deeper.
pub open spec fn cork_step(v: MuxView) -> MuxView {
    MuxView { cork_depth: (v.cork_depth + 1) as u32, ..v }
}

/// Uncorking: one level shallower; leaving the last level writes what was
/// batched as one batch frame.
pub open spec fn uncork_step(v: MuxView) -> (MuxView, Seq<ActionView>) {
    if v.cork_depth == 0 {
        (v, Seq::empty())
    } else if v.cork_depth == 1 && v.batch.len() > 0 {
        (MuxView { cork_depth: 0, batch: Seq::empty(), ..v }, seq![ActionView::Write(enc_batch(v.batch))])
    } else {
        (MuxView { cork_depth: (v.cork_depth - 1) as u32, ..v }, Seq::empty())
    }
}

/// The batch frame fits in memory.
pub open spec fn batch_fits(es: Seq<(u64, Seq<u8>)>) -> bool {
    es.len() > 0 ==> 2 + uint_size(es[0].0) + batch_body(es, es.len()).len() <= usize::MAX
}

/// An open frame for any local id fits in memory.
pub open spec fn open_fits(protocol: Seq<char>, id: Option<Seq<u8>>, handshake: Option<Seq<u8>>) -> bool {
    11 + string_size(protocol) + buffer_size(id) + trailing(handshake).len() <= usize::MAX
}


/// The remote table long enough to hold slot `n - 1`.
pub open spec fn grow(r: Seq<Option<RemoteView>>, n: int) -> Seq<Option<RemoteView>> {
    if r.len() >= n {
        r
    } else {
        r + Seq::new((n - r.len()) as nat, |_i: int| None)
    }
}

/// The remote side opens channel `remote_local_id` (truncated to a `u32`):
/// id 0 is rejected; an id already in use is a protocol error (the last
/// component is `false`); otherwise the channel is paired with the first
/// local channel waiting under its key, which is opened with the remote's
/// handshake data, or it waits under its key for a local channel.
pub open spec fn remote_open_step(
    v: MuxView,
    remote_local_id: u64,
    protocol: Seq<char>,
    id: Option<Seq<u8>>,
    handshake: Option<Seq<u8>>,
) -> (MuxView, Seq<ActionView>, bool) {
    let rid = remote_local_id as u32;
    if rid == 0 {
        (v, seq![ActionView::Write(enc_reject(0))], true)
    } else {
        let r = rid - 1;
        let remote = grow(v.remote, r + 1);
        if remote[r] is Some {
            (MuxView { remote, ..v }, Seq::empty(), false)
        } else {
            let key = channel_key(protocol, id);
            let (info, paired) = pair_or_wait(info_of(v.infos, key), rid, false);
            let infos = v.infos.insert(key, info);
            match paired {
                Some(pos) => {
                    let slot = pos - 1;
                    let remote2 = remote.update(
                        r,
                        Some(RemoteView { handshake, local_id: Some(slot as u32), pending: Seq::empty() }),
                    );
                    match v.local[slot] {
                        Some(c) => (
                            MuxView {
                                local: v.local.update(slot, Some(LocalView { remote_id: Some(rid), opened: true, ..c })),
                                remote: remote2,
                                infos,
                                ..v
                            },
                            seq![ActionView::Opened { local_id: pos, handshake }],
                            true,
                        ),
                        None => (MuxView { remote: remote2, infos, ..v }, Seq::empty(), true),
                    }
                },
                None => (
                    MuxView {
                        remote: remote.update(r, Some(RemoteView { handshake, local_id: None, pending: Seq::empty() })),
                        infos,
                        ..v
                    },
                    Seq::empty(),
                    true,
                ),
            }
        }
    }
}

/// The local slot a remote channel is paired with, when that slot holds a
/// channel that is not closed.
pub open spec fn live_partner(v: MuxView, r: int) -> Option<int> {
    if 0 <= r < v.remote.len() && v.remote[r] is Some && v.remote[r]->0.local_id is Some {
        let l = v.remote[r]->0.local_id->0 as int;
        if l < v.local.len() && (v.local[l] matches Some(c) && !c.closed) {
            Some(l)
        } else {
            None
        }
    } else {
        None
    }
}

/// Marks the channel in a slot closed.
pub open spec fn close_slot(c: Option<LocalView>) -> Option<LocalView> {
    match c {
        Some(c) => Some(LocalView { closed: true, ..c }),
        None => None,
    }
}

/// The remote side closes channel `remote_local_id`: its local partner, if
/// still open, learns that the remote closed it, and the remote slot is
/// emptied.
pub open spec fn remote_close_step(v: MuxView, remote_local_id: u64) -> (MuxView, Seq<ActionView>) {
    let rid = remote_local_id as u32;
    if rid == 0 || rid - 1 >= v.remote.len() {
        (v, Seq::empty())
    } else {
        let r = rid - 1;
        match live_partner(v, r) {
            Some(l) => (
                MuxView { local: v.local.update(l, close_slot(v.local[l])), remote: v.remote.update(r, None), ..v },
                seq![ActionView::Closed { local_id: (l + 1) as u32, is_remote: true }],
            ),
            None => (MuxView { remote: v.remote.update(r, None), ..v }, Seq::empty()),
        }
    }
}

/// A reject of local channel `remote_id` names an existing slot.
pub open spec fn reject_ok(v: MuxView, remote_id: u64) -> bool {
    let w = remote_id as u32;
    1 <= w && w - 1 < v.local.len()
}

/// The remote side rejects local channel `remote_id`: the channel, if open,
/// learns that the remote closed it, and its slot is freed.
pub open spec fn reject_step(v: MuxView, remote_id: u64) -> (MuxView, Seq<ActionView>) {
    let w = remote_id as u32;
    let i = w - 1;
    let told = if v.local[i] matches Some(c) && !c.closed {
        seq![ActionView::Closed { local_id: w, is_remote: true }]
    } else {
        Seq::empty()
    };
    (
        MuxView { local: v.local.update(i, None), free_ids: v.free_ids.push(i as u32), ..v },
        told + seq![ActionView::Release { local_id: w }],
    )
}

/// A message on remote channel `rid`: delivered to its local partner when
/// that is open, buffered on the remote channel otherwise, dropped when the
/// remote channel does not exist.
pub open spec fn dispatch_step(v: MuxView, rid: u32, message_type: u64, payload: Seq<u8>) -> (MuxView, Seq<ActionView>) {
    if rid == 0 {
        (v, Seq::empty())
    } else {
        let r = rid - 1;
        if r < v.remote.len() && v.remote[r] is Some {
            let rc = v.remote[r]->0;
            if rc.local_id matches Some(l) && (l < v.local.len() && (v.local[l as int] matches Some(c) && c.opened)) {
                (
                    v,
                    seq![
                        ActionView::Message {
                            local_id: (rc.local_id->0 + 1) as u32,
                            message_type: message_type as u32,
                            data: payload,
                        },
                    ],
                )
            } else {
                (
                    MuxView {
                        remote: v.remote.update(r, Some(RemoteView { pending: rc.pending.push((message_type, payload)), ..rc })),
                        ..v
                    },
                    Seq::empty(),
                )
            }
        } else {
            (v, Seq::empty())
        }
    }
}

/// The messages of a batch, one after another: each inner message is its
/// type as a uint and its payload; one that does not read stops the batch
/// with its error.
pub open spec fn batch_step(v: MuxView, items: Seq<(u64, Seq<u8>)>) -> (MuxView, Seq<ActionView>, Option<EncodingError>)
    decreases items.len(),
{
    if items.len() == 0 {
        (v, Seq::empty(), None)
    } else {
        match parse_uint(items[0].1) {
            Err(e) => (v, Seq::empty(), Some(e)),
            Ok((mt, k)) => {
                let (v1, a1) = dispatch_step(v, items[0].0 as u32, mt, items[0].1.skip(k as int));
                let (v2, a2, e) = batch_step(v1, items.drop_first());
                (v2, a1 + a2, e)
            },
        }
    }
}

/// A frame would make the multiplexer abort: a reject of a slot that does
/// not exist.
pub open spec fn frame_aborts(v: MuxView, data: Seq<u8>) -> bool {
    parse_frame(data) matches Ok(FrameView::Reject { remote_id }) && !reject_ok(v, remote_id)
}

/// A frame from the stream: it is read, then handled by its kind. The last
/// component is the error that ends the multiplexer, if any.
pub open spec fn frame_step(v: MuxView, data: Seq<u8>) -> (MuxView, Seq<ActionView>, Option<MuxErrorView>) {
    match parse_frame(data) {
        Err(e) => (v, Seq::empty(), Some(e)),
        Ok(FrameView::Open { local_id, protocol, id, handshake_state }) => {
            let (v1, a, ok) = remote_open_step(v, local_id, protocol, id, handshake_state);
            (v1, a, if ok {
                None
            } else {
                Some(MuxErrorView::InvalidFrame("duplicate remote channel ID"@))
            })
        },
        Ok(FrameView::Close { local_id }) => {
            let (v1, a) = remote_close_step(v, local_id);
            (v1, a, None)
        },
        Ok(FrameView::Reject { remote_id }) => {
            let (v1, a) = reject_step(v, remote_id);
            (v1, a, None)
        },
        Ok(FrameView::Message { channel_id, message_type, payload }) => {
            let (v1, a) = dispatch_step(v, channel_id as u32, message_type, payload);
            (v1, a, None)
        },
        Ok(FrameView::Batch(items)) => {
            let (v1, a, e) = batch_step(v, items);
            (v1, a, match e {
                Some(e) => Some(MuxErrorView::Encoding(e)),
                None => None,
            })
        },
    }
}


/// A frame from the stream as the multiplexer takes it: an empty frame is
/// ignored, any other is handled by [`frame_step`].
pub open spec fn read_step(v: MuxView, data: Seq<u8>) -> (MuxView, Seq<ActionView>, Option<MuxErrorView>) {
    if data.len() == 0 {
        (v, Seq::empty(), None)
    } else {
        frame_step(v, data)
    }
}

/// What the channels learn when the stream ends: each channel not closed
/// yet learns that the remote closed it.
pub open spec fn shutdown_actions(local: Seq<Option<LocalView>>) -> Seq<ActionView>
    decreases local.len(),
{
    if local.len() == 0 {
        Seq::empty()
    } else {
        shutdown_actions(local.drop_last()) + if local.last() matches Some(c) && !c.closed {
            seq![ActionView::Closed { local_id: local.len() as u32, is_remote: true }]
        } else {
            Seq::empty()
        }
    }
}

/// The stream ended: every channel is marked closed.
pub open spec fn shutdown_step(v: MuxView) -> (MuxView, Seq<ActionView>) {
    (MuxView { local: v.local.map_values(|c: Option<LocalView>| close_slot(c)), ..v }, shutdown_actions(v.local))
}

// ── Lemmas on the key map ───────────────────────────────────────────────────

/// An entry's key maps to its waiting channels.
proof fn lemma_infos_has(s: Seq<ChannelInfo>, i: int)
    requires
        keys_distinct(s),
        0 <= i < s.len(),
    ensures
        infos_map(s).contains_key(s[i].key@),
        infos_map(s)[s[i].key@] == info_view(s[i]),
{
    let k = s[i].key@;
    assert(exists|j: int| 0 <= j < s.len() && #[trigger] s[j].key@ == k);
    let j = choose|j: int| 0 <= j < s.len() && #[trigger] s[j].key@ == k;
    assert(j == i);
}

/// A key of no entry is not in the map.
proof fn lemma_infos_lacks(s: Seq<ChannelInfo>, k: Seq<char>)
    requires
        forall|i: int| 0 <= i < s.len() ==> #[trigger] s[i].key@ != k,
    ensures
        !infos_map(s).contains_key(k),
{
}

/// Replacing an entry by one with the same key updates the map there.
proof fn lemma_infos_set(s: Seq<ChannelInfo>, i: int, f: ChannelInfo)
    requires
        keys_distinct(s),
        0 <= i < s.len(),
        f.key@ == s[i].key@,
    ensures
        keys_distinct(s.update(i, f)),
        infos_map(s.update(i, f)) == infos_map(s).insert(f.key@, info_view(f)),
{
    let t = s.update(i, f);
    assert forall|a: int, b: int| 0 <= a < t.len() && 0 <= b < t.len() && a != b implies #[trigger] t[a].key@
        != #[trigger] t[b].key@ by {
        assert(t[a].key@ == s[a].key@);
        assert(t[b].key@ == s[b].key@);
    }
    let m = infos_map(s).insert(f.key@, info_view(f));
    assert forall|k: Seq<char>| #[trigger] infos_map(t).contains_key(k) <==> m.contains_key(k) by {
        if infos_map(t).contains_key(k) {
            let j = choose|j: int| 0 <= j < t.len() && #[trigger] t[j].key@ == k;
            assert(s[j].key@ == k);
        }
        if infos_map(s).contains_key(k) {
            let j = choose|j: int| 0 <= j < s.len() && #[trigger] s[j].key@ == k;
            assert(t[j].key@ == k);
        }
        if k == f.key@ {
            assert(t[i].key@ == k);
        }
    }
    assert forall|k: Seq<char>| #[trigger] infos_map(t).contains_key(k) implies infos_map(t)[k] == m[k] by {
        let j = choose|j: int| 0 <= j < t.len() && #[trigger] t[j].key@ == k;
        if j == i {
            assert(k == f.key@);
        } else {
            assert(s[j].key@ == k);
            lemma_infos_has(s, j);
            assert(k != f.key@);
        }
    }
    assert(infos_map(t) =~= m);
}

/// Adding an entry with a new key adds it to the map.
proof fn lemma_infos_push(s: Seq<ChannelInfo>, f: ChannelInfo)
    requires
        keys_distinct(s),
        forall|i: int| 0 <= i < s.len() ==> #[trigger] s[i].key@ != f.key@,
    ensures
        keys_distinct(s.push(f)),
        infos_map(s.push(f)) == infos_map(s).insert(f.key@, info_view(f)),
{
    let t = s.push(f);
    assert forall|a: int, b: int| 0 <= a < t.len() && 0 <= b < t.len() && a != b implies #[trigger] t[a].key@
        != #[trigger] t[b].key@ by {
        if a < s.len() {
            assert(t[a] == s[a]);
        }
        if b < s.len() {
            assert(t[b] == s[b]);
        }
    }
    let m = infos_map(s).insert(f.key@, info_view(f));
    assert forall|k: Seq<char>| #[trigger] infos_map(t).contains_key(k) <==> m.contains_key(k) by {
        if infos_map(t).contains_key(k) {
            let j = choose|j: int| 0 <= j < t.len() && #[trigger] t[j].key@ == k;
            if j < s.len() {
                assert(s[j].key@ == k);
            }
        }
        if infos_map(s).contains_key(k) {
            let j = choose|j: int| 0 <= j < s.len() && #[trigger] s[j].key@ == k;
            assert(t[j].key@ == k);
        }
        if k == f.key@ {
            assert(t[s.len() as int].key@ == k);
        }
    }
    assert forall|k: Seq<char>| #[trigger] infos_map(t).contains_key(k) implies infos_map(t)[k] == m[k] by {
        let j = choose|j: int| 0 <= j < t.len() && #[trigger] t[j].key@ == k;
        if j < s.len() {
            assert(t[j] == s[j]);
            lemma_infos_has(s, j);
        } else {
            assert(k == f.key@);
        }
    }
    assert(infos_map(t) =~= m);
}

// ── Operations ──────────────────────────────────────────────────────────────

/// The pairing key of a protocol and id.
fn make_key(protocol: &str, id: &Option<Vec<u8>>) -> (k: String)
    ensures
        k@ == channel_key(protocol@, opt_vec(*id)),
{
    let mut k = protocol.to_owned();
    proof {
        reveal_strlit("##");
    }
    k.append("##");
    match id {
        Some(b) => {
            let h = crate::hex::encode(b.as_slice());
            k.append(h.as_str());
        },
        None => {
            assert(hex_text(Seq::<u8>::empty()) =~= Seq::<char>::empty());
            assert(k@ =~= channel_key(protocol@, opt_vec(*id)));
        },
    }
    k
}

/// A copy of optional bytes.
fn copy_bytes(b: &Option<Vec<u8>>) -> (c: Option<Vec<u8>>)
    ensures
        opt_vec(c) == opt_vec(*b),
{
    match b {
        Some(v) => Some(vstd::slice::slice_to_vec(v.as_slice())),
        None => None,
    }
}

/// The inner bytes of a batched message: its type, then its payload.
fn inner_message(message_type: u64, data: &[u8]) -> (v: Vec<u8>)
    ensures
        v@ == enc_uint(message_type) + data@,
{
    let mut v = crate::hyperdht::encode_compact_uint(message_type);
    let mut d = vstd::slice::slice_to_vec(data);
    v.append(&mut d);
    v
}

impl MuxState {
    /// Empty bookkeeping: no channels, not corked.
    pub fn new() -> (s: Self)
        ensures
            s.wf(),
            s@ == (MuxView {
                local: Seq::empty(),
                free_ids: Seq::empty(),
                remote: Seq::empty(),
                infos: Map::empty(),
                cork_depth: 0,
                batch: Seq::empty(),
            }),
    {
        let s = MuxState {
            local: Vec::new(),
            free_ids: Vec::new(),
            remote: Vec::new(),
            infos: Vec::new(),
            cork_depth: 0,
            batch: Vec::new(),
        };
        proof {
            assert(infos_map(s.infos@) =~= Map::empty());
            assert(s@.local =~= Seq::empty());
            assert(s@.remote =~= Seq::empty());
            assert(s@.batch =~= Seq::empty());
        }
        s
    }

    /// How many local slots exist.
    pub fn local_slots(&self) -> (n: usize)
        ensures
            n == self@.local.len(),
    {
        self.local.len()
    }

    /// How deep writes are corked.
    pub fn cork_depth(&self) -> (d: u32)
        ensures
            d == self@.cork_depth,
    {
        self.cork_depth
    }

    /// Starts batching writes, or batches one level deeper.
    pub fn cork(&mut self)
        requires
            old(self).wf(),
            old(self)@.cork_depth < u32::MAX,
        ensures
            final(self).wf(),
            final(self)@ == cork_step(old(self)@),
    {
        self.cork_depth = self.cork_depth + 1;
        proof {
            assert(self@ =~= cork_step(old(self)@));
        }
    }

    /// Ends one level of batching; leaving the last level writes the batch.
    pub fn uncork(&mut self) -> (acts: Vec<MuxAction>)
        requires
            old(self).wf(),
            old(self)@.cork_depth == 1 ==> batch_fits(old(self)@.batch),
        ensures
            final(self).wf(),
            final(self)@ == uncork_step(old(self)@).0,
            actions_view(acts@) == uncork_step(old(self)@).1,
    {
        let mut acts: Vec<MuxAction> = Vec::new();
        if self.cork_depth > 0 {
            self.cork_depth = self.cork_depth - 1;
            if self.cork_depth == 0 && self.batch.len() > 0 {
                let mut entries: Vec<(u64, Vec<u8>)> = Vec::new();
                std::mem::swap(&mut entries, &mut self.batch);
                let frame = encode_batch(entries.as_slice());
                proof {
                    assert(frame@.len() > 0) by {
                        assert(frame@ == enc_batch(entries_view(entries@)));
                        assert(enc_batch(entries_view(entries@))[0] == 0u8);
                    }
                }
                if frame.len() > 0 {
                    acts.push(MuxAction::Write(frame));
                }
            }
        }
        proof {
            assert(self@ =~= uncork_step(old(self)@).0);
            assert(actions_view(acts@) =~= uncork_step(old(self)@).1);
        }
        acts
    }

    /// Sends a message on local channel `local_id`.
    pub fn send_message(&mut self, local_id: u32, message_type: u32, data: &[u8]) -> (acts: Vec<MuxAction>)
        requires
            old(self).wf(),
            local_id >= 1,
            data@.len() + 18 <= usize::MAX,
        ensures
            final(self).wf(),
            final(self)@ == send_step(old(self)@, local_id, message_type, data@).0,
            actions_view(acts@) == send_step(old(self)@, local_id, message_type, data@).1,
    {
        let mut acts: Vec<MuxAction> = Vec::new();
        let i = (local_id - 1) as usize;
        if i >= self.local.len() {
            return acts;
        }
        if self.local[i].is_none() {
            return acts;
        }
        if self.cork_depth > 0 {
            let inner = inner_message(message_type as u64, data);
            self.batch.push((local_id as u64, inner));
            proof {
                assert(self@ =~= send_step(old(self)@, local_id, message_type, data@).0);
            }
        } else {
            let frame = encode_message(local_id as u64, message_type as u64, data);
            acts.push(MuxAction::Write(frame));
            proof {
                assert(actions_view(acts@) =~= send_step(old(self)@, local_id, message_type, data@).1);
            }
        }
        acts
    }

    /// Closes local channel `local_id`.
    pub fn close_channel(&mut self, local_id: u32) -> (acts: Vec<MuxAction>)
        requires
            old(self).wf(),
            local_id >= 1,
        ensures
            final(self).wf(),
            final(self)@ == close_step(old(self)@, local_id).0,
            actions_view(acts@) == close_step(old(self)@, local_id).1,
    {
        let mut acts: Vec<MuxAction> = Vec::new();
        let i = (local_id - 1) as usize;
        if i >= self.local.len() {
            return acts;
        }
        let was_open = match &self.local[i] {
            Some(ch) => {
                if ch.closed {
                    return acts;
                }
                true
            },
            None => false,
        };
        if was_open {
            acts.push(MuxAction::Deliver { local_id, event: ChannelEvent::Closed { is_remote: false } });
        }
        acts.push(MuxAction::Write(encode_close(local_id as u64)));
        self.local[i] = None;
        self.free_ids.push(i as u32);
        acts.push(MuxAction::Release { local_id });
        proof {
            assert(self@.local =~= old(self)@.local.update(i as int, None));
            assert(self@ =~= close_step(old(self)@, local_id).0);
            assert(actions_view(acts@) =~= close_step(old(self)@, local_id).1);
        }
        acts
    }
}

/// The bytes of optional owned bytes, borrowed.
fn opt_slice(b: &Option<Vec<u8>>) -> (r: Option<&[u8]>)
    ensures
        opt_bytes(r) == opt_vec(*b),
{
    match b {
        Some(v) => Some(v.as_slice()),
        None => None,
    }
}

/// The waiting lists of `key` after one side announces channel `id`: the
/// other side's first waiting channel is taken if there is one, else `id`
/// joins its own side's list. `local_side` says whether `id` is local.
pub open spec fn pair_or_wait(info: InfoView, id: u32, local_side: bool) -> (InfoView, Option<u32>) {
    if local_side {
        if info.incoming.len() > 0 {
            (InfoView { outgoing: info.outgoing, incoming: info.incoming.drop_first() }, Some(info.incoming[0]))
        } else {
            (InfoView { outgoing: info.outgoing.push(id), incoming: info.incoming }, None)
        }
    } else {
        if info.outgoing.len() > 0 {
            (InfoView { outgoing: info.outgoing.drop_first(), incoming: info.incoming }, Some(info.outgoing[0]))
        } else {
            (InfoView { outgoing: info.outgoing, incoming: info.incoming.push(id) }, None)
        }
    }
}

impl MuxState {
    /// The entry whose key is `key`, if any.
    fn find_info(&self, key: &String) -> (r: Option<usize>)
        requires
            keys_distinct(self.infos@),
        ensures
            match r {
                Some(i) => i < self.infos@.len() && self.infos@[i as int].key@ == key@,
                None => forall|i: int| 0 <= i < self.infos@.len() ==> #[trigger] self.infos@[i].key@ != key@,
            },
    {
        let mut j: usize = 0;
        while j < self.infos.len()
            invariant
                j <= self.infos@.len(),
                forall|i: int| 0 <= i < j ==> #[trigger] self.infos@[i].key@ != key@,
            decreases self.infos@.len() - j,
        {
            if same_str(self.infos[j].key.as_str(), key.as_str()) {
                return Some(j);
            }
            j = j + 1;
        }
        None
    }

    /// Announces channel `id` under `key` (see [`pair_or_wait`]) and returns
    /// the channel of the other side it pairs with, if any.
    fn pair_info(&mut self, key: String, id: u32, local_side: bool) -> (r: Option<u32>)
        requires
            old(self).wf(),
            1 <= id,
            local_side ==> id <= old(self)@.local.len(),
        ensures
            final(self).wf(),
            r == pair_or_wait(info_of(old(self)@.infos, key@), id, local_side).1,
            final(self)@ == (MuxView {
                infos: old(self)@.infos.insert(key@, pair_or_wait(info_of(old(self)@.infos, key@), id, local_side).0),
                ..old(self)@
            }),
    {
        let ghost s0 = self.infos@;
        let ghost info = info_of(old(self)@.infos, key@);
        let ghost want = pair_or_wait(info, id, local_side);
        match self.find_info(&key) {
            Some(i) => {
                proof {
                    lemma_infos_has(s0, i as int);
                }
                let mut entry = ChannelInfo { key: String::new(), outgoing: Vec::new(), incoming: Vec::new() };
                std::mem::swap(&mut entry, &mut self.infos[i]);
                assert(info_view(entry) == info);
                let mut r: Option<u32> = None;
                if local_side {
                    if entry.incoming.len() > 0 {
                        r = Some(entry.incoming.remove(0));
                    } else {
                        entry.outgoing.push(id);
                    }
                } else {
                    if entry.outgoing.len() > 0 {
                        r = Some(entry.outgoing.remove(0));
                    } else {
                        entry.incoming.push(id);
                    }
                }
                let ghost ev = entry;
                self.infos[i] = entry;
                proof {
                    assert(info_view(ev) =~= want.0);
                    assert(self.infos@ == s0.update(i as int, ev));
                    lemma_infos_set(s0, i as int, ev);
                    assert(self@ =~= (MuxView { infos: old(self)@.infos.insert(key@, want.0), ..old(self)@ }));
                    let f = want.0;
                    assert(info_ok(f, old(self)@.local.len())) by {
                        assert forall|j: int| 0 <= j < f.outgoing.len() implies 1 <= #[trigger] f.outgoing[j]
                            <= old(self)@.local.len() by {
                            if !(local_side && info.incoming.len() == 0 && j == info.outgoing.len()) {
                                if !local_side && info.outgoing.len() > 0 {
                                    assert(f.outgoing[j] == info.outgoing[j + 1]);
                                } else {
                                    assert(f.outgoing[j] == info.outgoing[j]);
                                }
                            }
                        }
                        assert forall|j: int| 0 <= j < f.incoming.len() implies 1 <= #[trigger] f.incoming[j] by {
                            if !(!local_side && info.outgoing.len() == 0 && j == info.incoming.len()) {
                                if local_side && info.incoming.len() > 0 {
                                    assert(f.incoming[j] == info.incoming[j + 1]);
                                } else {
                                    assert(f.incoming[j] == info.incoming[j]);
                                }
                            }
                        }
                    }
                }
                r
            },
            None => {
                proof {
                    lemma_infos_lacks(s0, key@);
                }
                let mut entry = ChannelInfo { key, outgoing: Vec::new(), incoming: Vec::new() };
                if local_side {
                    entry.outgoing.push(id);
                } else {
                    entry.incoming.push(id);
                }
                let ghost ev = entry;
                self.infos.push(entry);
                proof {
                    assert(info_view(ev) =~= want.0);
                    lemma_infos_push(s0, ev);
                    assert(self@ =~= (MuxView { infos: old(self)@.infos.insert(key@, want.0), ..old(self)@ }));
                }
                None
            },
        }
    }
}

impl MuxState {
    /// Takes a slot for a new local channel (see [`alloc_slot`]).
    fn take_slot(&mut self) -> (slot: u32)
        requires
            old(self).wf(),
            old(self)@.local.len() < u32::MAX,
        ensures
            keys_distinct(final(self).infos@),
            final(self).infos@ == old(self).infos@,
            final(self)@ == alloc_slot(old(self)@).0,
            slot == alloc_slot(old(self)@).1,
            slot < final(self)@.local.len(),
            final(self)@.local.len() <= u32::MAX,
    {
        match self.free_ids.pop() {
            Some(id) => {
                proof {
                    assert(self@ =~= alloc_slot(old(self)@).0);
                }
                id
            },
            None => {
                let id = self.local.len() as u32;
                self.local.push(None);
                proof {
                    assert(self@.local =~= old(self)@.local.push(None));
                    assert(self@ =~= alloc_slot(old(self)@).0);
                }
                id
            },
        }
    }

    /// Opens a local channel (see [`create_step`]); returns its local id and
    /// the actions.
    pub fn create_channel(&mut self, protocol: &str, id: Option<Vec<u8>>, handshake: Option<Vec<u8>>) -> (res: (
        u32,
        Vec<MuxAction>,
    ))
        requires
            old(self).wf(),
            old(self)@.local.len() < u32::MAX,
            open_fits(protocol@, opt_vec(id), opt_vec(handshake)),
        ensures
            final(self).wf(),
            final(self)@ == create_step(old(self)@, protocol@, opt_vec(id), opt_vec(handshake)).0,
            actions_view(res.1@) == create_step(old(self)@, protocol@, opt_vec(id), opt_vec(handshake)).1,
            res.0 == create_step(old(self)@, protocol@, opt_vec(id), opt_vec(handshake)).2,
    {
        let ghost v0 = old(self)@;
        let ghost step = create_step(v0, protocol@, opt_vec(id), opt_vec(handshake));
        let slot = self.take_slot();
        let ghost a = self@;
        let local_id = slot + 1;
        let key = make_key(protocol, &id);
        proof {
            crate::compact_encoding::lemma_uint_roundtrip(local_id as u64, Seq::empty());
        }
        let frame = encode_open(local_id as u64, protocol, opt_slice(&id), opt_slice(&handshake));
        let ghost info = info_of(a.infos, key@);
        let paired = self.pair_info(key, local_id, true);
        let ghost b = self@;
        let mut acts: Vec<MuxAction> = Vec::new();
        acts.push(MuxAction::Write(frame));
        match paired {
            Some(rid) => {
                assert(info.incoming.len() > 0 && rid == info.incoming[0]);
                assert(rid >= 1);
                let r = (rid - 1) as usize;
                let mut hs: Option<Vec<u8>> = None;
                let mut pending: Vec<(u64, Vec<u8>)> = Vec::new();
                if r < self.remote.len() && self.remote[r].is_some() {
                    let mut taken: Option<RemoteChannel> = None;
                    std::mem::swap(&mut taken, &mut self.remote[r]);
                    match taken {
                        Some(rc) => {
                            hs = rc.handshake_state;
                            pending = rc.pending;
                        },
                        None => {},
                    }
                    let fresh = RemoteChannel { handshake_state: None, local_id: Some(slot), pending: Vec::new() };
                    let ghost fv = fresh;
                    let ghost rem0 = self.remote@;
                    self.remote[r] = Some(fresh);
                    proof {
                        assert(self.remote@ == rem0.update(r as int, Some(fv)));
                        assert(entries_view(fv.pending@) =~= Seq::empty());
                        assert(rem0.map_values(|c: Option<RemoteChannel>| remote_view(c)) =~= b.remote.update(r as int, None));
                        assert(self@.remote =~= b.remote.update(r as int, Some(RemoteView { handshake: None, local_id: Some(slot), pending: Seq::empty() })));
                    }
                }
                self.local[slot as usize] = Some(LocalChannel {
                    protocol: protocol.to_owned(),
                    id,
                    remote_id: Some(rid),
                    opened: true,
                    closed: false,
                });
                acts.push(MuxAction::Deliver { local_id, event: ChannelEvent::Opened { handshake: hs } });
                let ghost head = actions_view(acts@);
                let ghost pv = entries_view(pending@);
                let mut k: usize = 0;
                while k < pending.len()
                    invariant
                        k <= pending@.len(),
                        pv == entries_view(pending@),
                        actions_view(acts@) == head + message_actions(local_id, pv.take(k as int)),
                    decreases pending@.len() - k,
                {
                    let mt = pending[k].0;
                    let ghost old_acts = acts@;
                    let data = vstd::slice::slice_to_vec(pending[k].1.as_slice());
                    let ghost dv = data@;
                    acts.push(MuxAction::Deliver { local_id, event: ChannelEvent::Message { message_type: #[verifier::truncate] (mt as u32), data } });
                    proof {
                        assert(pv[k as int] == (mt, dv));
                        assert(actions_view(acts@) =~= actions_view(old_acts).push(ActionView::Message { local_id, message_type: mt as u32, data: dv }));
                        assert(message_actions(local_id, pv.take(k + 1)) =~= message_actions(local_id, pv.take(k as int)).push(
                            ActionView::Message { local_id, message_type: mt as u32, data: pv[k as int].1 },
                        ));
                        assert(actions_view(acts@) =~= head + message_actions(local_id, pv.take(k + 1)));
                    }
                    k = k + 1;
                }
                proof {
                    assert(pv.take(k as int) =~= pv);
                    assert(self@ =~= step.0);
                    assert(head =~= seq![step.1[0], step.1[1]]);
                    assert(actions_view(acts@) =~= step.1);
                }
            },
            None => {
                self.local[slot as usize] = Some(LocalChannel {
                    protocol: protocol.to_owned(),
                    id,
                    remote_id: None,
                    opened: false,
                    closed: false,
                });
                proof {
                    assert(self@ =~= step.0);
                    assert(actions_view(acts@) =~= step.1);
                }
            },
        }
        (local_id, acts)
    }
}

impl MuxState {
    /// Puts `c` into local slot `i`.
    fn set_local(&mut self, i: usize, c: Option<LocalChannel>)
        requires
            i < old(self).local@.len(),
        ensures
            final(self).infos@ == old(self).infos@,
            final(self).local@.len() == old(self).local@.len(),
            final(self).remote@.len() == old(self).remote@.len(),
            final(self)@ == (MuxView { local: old(self)@.local.update(i as int, local_view(c)), ..old(self)@ }),
    {
        self.local[i] = c;
        proof {
            assert(self@.local =~= old(self)@.local.update(i as int, local_view(c)));
            assert(self@ =~= (MuxView { local: old(self)@.local.update(i as int, local_view(c)), ..old(self)@ }));
        }
    }

    /// Takes what local slot `i` holds, leaving it empty.
    fn take_local(&mut self, i: usize) -> (c: Option<LocalChannel>)
        requires
            i < old(self).local@.len(),
        ensures
            local_view(c) == old(self)@.local[i as int],
            final(self).infos@ == old(self).infos@,
            final(self).local@.len() == old(self).local@.len(),
            final(self).remote@.len() == old(self).remote@.len(),
            final(self)@ == (MuxView { local: old(self)@.local.update(i as int, None), ..old(self)@ }),
    {
        let mut c: Option<LocalChannel> = None;
        std::mem::swap(&mut c, &mut self.local[i]);
        proof {
            assert(self.local@ == old(self).local@.update(i as int, None));
            assert(self@.local =~= old(self)@.local.update(i as int, None));
            assert(self@ =~= (MuxView { local: old(self)@.local.update(i as int, None), ..old(self)@ }));
        }
        c
    }

    /// Puts `c` into remote slot `r`.
    fn set_remote(&mut self, r: usize, c: Option<RemoteChannel>)
        requires
            r < old(self).remote@.len(),
        ensures
            final(self).infos@ == old(self).infos@,
            final(self).local@.len() == old(self).local@.len(),
            final(self).remote@.len() == old(self).remote@.len(),
            final(self)@ == (MuxView { remote: old(self)@.remote.update(r as int, remote_view(c)), ..old(self)@ }),
    {
        self.remote[r] = c;
        proof {
            assert(self@.remote =~= old(self)@.remote.update(r as int, remote_view(c)));
            assert(self@ =~= (MuxView { remote: old(self)@.remote.update(r as int, remote_view(c)), ..old(self)@ }));
        }
    }

    /// Takes what remote slot `r` holds, leaving it empty.
    fn take_remote(&mut self, r: usize) -> (c: Option<RemoteChannel>)
        requires
            r < old(self).remote@.len(),
        ensures
            remote_view(c) == old(self)@.remote[r as int],
            final(self).infos@ == old(self).infos@,
            final(self).local@.len() == old(self).local@.len(),
            final(self).remote@.len() == old(self).remote@.len(),
            final(self)@ == (MuxView { remote: old(self)@.remote.update(r as int, None), ..old(self)@ }),
    {
        let mut c: Option<RemoteChannel> = None;
        std::mem::swap(&mut c, &mut self.remote[r]);
        proof {
            assert(self.remote@ == old(self).remote@.update(r as int, None));
            assert(self@.remote =~= old(self)@.remote.update(r as int, None));
            assert(self@ =~= (MuxView { remote: old(self)@.remote.update(r as int, None), ..old(self)@ }));
        }
        c
    }

    /// The remote side opened a channel (see [`remote_open_step`]); `false`
    /// when its id is already in use.
    fn handle_remote_open(
        &mut self,
        remote_local_id: u64,
        protocol: &str,
        id: Option<Vec<u8>>,
        handshake_state: Option<Vec<u8>>,
    ) -> (res: (Vec<MuxAction>, bool))
        requires
            old(self).wf(),
        ensures
            final(self).wf(),
            final(self)@ == remote_open_step(old(self)@, remote_local_id, protocol@, opt_vec(id), opt_vec(handshake_state)).0,
            actions_view(res.0@) == remote_open_step(old(self)@, remote_local_id, protocol@, opt_vec(id), opt_vec(handshake_state)).1,
            res.1 == remote_open_step(old(self)@, remote_local_id, protocol@, opt_vec(id), opt_vec(handshake_state)).2,
    {
        let ghost v0 = old(self)@;
        let ghost step = remote_open_step(v0, remote_local_id, protocol@, opt_vec(id), opt_vec(handshake_state));
        let mut acts: Vec<MuxAction> = Vec::new();
        let rid: u32 = #[verifier::truncate] (remote_local_id as u32);
        if rid == 0 {
            acts.push(MuxAction::Write(encode_reject(0)));
            proof {
                assert(actions_view(acts@) =~= step.1);
            }
            return (acts, true);
        }
        let r = (rid - 1) as usize;
        while self.remote.len() <= r
            invariant
                keys_distinct(self.infos@),
                v0.remote.len() <= self.remote@.len() <= (if v0.remote.len() > r + 1 { v0.remote.len() as int } else { r + 1 }),
                self@ == (MuxView { remote: grow(v0.remote, self.remote@.len() as int), ..v0 }),
            decreases r + 1 - self.remote@.len(),
        {
            let ghost n = self.remote@.len() as int;
            self.remote.push(None);
            proof {
                assert(grow(v0.remote, n + 1) =~= grow(v0.remote, n).push(None));
                assert(self@.remote =~= grow(v0.remote, n + 1));
                assert(self@ =~= (MuxView { remote: grow(v0.remote, self.remote@.len() as int), ..v0 }));
            }
        }
        proof {
            assert(grow(v0.remote, self.remote@.len() as int) =~= grow(v0.remote, r + 1));
            assert(mux_wf(self@));
        }
        if self.remote[r].is_some() {
            return (acts, false);
        }
        let key = make_key(protocol, &id);
        let ghost info = info_of(v0.infos, key@);
        proof {
            if v0.infos.contains_key(key@) {
                assert(info_ok(v0.infos[key@], v0.local.len()));
            }
        }
        let paired = self.pair_info(key, rid, false);
        match paired {
            Some(pos) => {
                assert(info.outgoing.len() > 0 && pos == info.outgoing[0]);
                assert(1 <= pos <= v0.local.len());
                let slot = pos - 1;
                let hs = copy_bytes(&handshake_state);
                self.set_remote(r, Some(RemoteChannel { handshake_state: hs, local_id: Some(slot), pending: Vec::new() }));
                proof {
                    assert(entries_view(Seq::<(u64, Vec<u8>)>::empty()) =~= Seq::empty());
                }
                match self.take_local(slot as usize) {
                    Some(ch) => {
                        let LocalChannel { protocol: cp, id: cid, remote_id: _, opened: _, closed: cc } = ch;
                        self.set_local(slot as usize, Some(LocalChannel { protocol: cp, id: cid, remote_id: Some(rid), opened: true, closed: cc }));
                        acts.push(MuxAction::Deliver { local_id: pos, event: ChannelEvent::Opened { handshake: handshake_state } });
                    },
                    None => {
                        self.set_local(slot as usize, None);
                    },
                }
                proof {
                    assert(self@ =~= step.0);
                    assert(actions_view(acts@) =~= step.1);
                }
            },
            None => {
                self.set_remote(r, Some(RemoteChannel { handshake_state, local_id: None, pending: Vec::new() }));
                proof {
                    assert(entries_view(Seq::<(u64, Vec<u8>)>::empty()) =~= Seq::empty());
                    assert(self@ =~= step.0);
                }
            },
        }
        (acts, true)
    }

    /// The remote side closed a channel (see [`remote_close_step`]).
    fn handle_remote_close(&mut self, remote_local_id: u64) -> (acts: Vec<MuxAction>)
        requires
            old(self).wf(),
        ensures
            final(self).wf(),
            final(self)@ == remote_close_step(old(self)@, remote_local_id).0,
            actions_view(acts@) == remote_close_step(old(self)@, remote_local_id).1,
    {
        let ghost v0 = old(self)@;
        let ghost step = remote_close_step(v0, remote_local_id);
        let mut acts: Vec<MuxAction> = Vec::new();
        let rid: u32 = #[verifier::truncate] (remote_local_id as u32);
        if rid == 0 {
            return acts;
        }
        let r = (rid - 1) as usize;
        if r >= self.remote.len() {
            return acts;
        }
        let mut target: Option<usize> = None;
        match &self.remote[r] {
            Some(rc) => match rc.local_id {
                Some(l) => {
                    let li = l as usize;
                    if li < self.local.len() {
                        match &self.local[li] {
                            Some(ch) => {
                                if !ch.closed {
                                    target = Some(li);
                                }
                            },
                            None => {},
                        }
                    }
                },
                None => {},
            },
            None => {},
        }
        proof {
            assert(match target {
                Some(l) => live_partner(v0, r as int) == Some(l as int),
                None => live_partner(v0, r as int) is None,
            });
        }
        match target {
            Some(l) => {
                match self.take_local(l) {
                    Some(ch) => {
                        let LocalChannel { protocol: cp, id: cid, remote_id: cr, opened: co, closed: _ } = ch;
                        self.set_local(l, Some(LocalChannel { protocol: cp, id: cid, remote_id: cr, opened: co, closed: true }));
                    },
                    None => {},
                }
                acts.push(MuxAction::Deliver { local_id: (l + 1) as u32, event: ChannelEvent::Closed { is_remote: true } });
            },
            None => {},
        }
        self.set_remote(r, None);
        proof {
            assert(self@ =~= step.0);
            assert(actions_view(acts@) =~= step.1);
        }
        acts
    }

    /// Whether a reject of `remote_id` names an existing local slot.
    pub fn reject_names_slot(&self, remote_id: u64) -> (b: bool)
        ensures
            b == reject_ok(self@, remote_id),
    {
        let w: u32 = #[verifier::truncate] (remote_id as u32);
        w >= 1 && ((w - 1) as usize) < self.local.len()
    }

    /// The remote side rejected a local channel (see [`reject_step`]).
    fn handle_remote_reject(&mut self, remote_id: u64) -> (acts: Vec<MuxAction>)
        requires
            old(self).wf(),
            reject_ok(old(self)@, remote_id),
        ensures
            final(self).wf(),
            final(self)@ == reject_step(old(self)@, remote_id).0,
            actions_view(acts@) == reject_step(old(self)@, remote_id).1,
    {
        let ghost v0 = old(self)@;
        let ghost step = reject_step(v0, remote_id);
        let mut acts: Vec<MuxAction> = Vec::new();
        let w: u32 = #[verifier::truncate] (remote_id as u32);
        let i = (w - 1) as usize;
        match self.take_local(i) {
            Some(ch) => {
                if !ch.closed {
                    acts.push(MuxAction::Deliver { local_id: w, event: ChannelEvent::Closed { is_remote: true } });
                }
            },
            None => {},
        }
        self.free_ids.push(i as u32);
        acts.push(MuxAction::Release { local_id: w });
        proof {
            assert(self@ =~= step.0);
            assert(actions_view(acts@) =~= step.1);
        }
        acts
    }

    /// A message on remote channel `rid` (see [`dispatch_step`]).
    fn dispatch_message(&mut self, rid: u32, message_type: u64, payload: &[u8]) -> (acts: Vec<MuxAction>)
        requires
            old(self).wf(),
        ensures
            final(self).wf(),
            final(self)@ == dispatch_step(old(self)@, rid, message_type, payload@).0,
            actions_view(acts@) == dispatch_step(old(self)@, rid, message_type, payload@).1,
    {
        let ghost v0 = old(self)@;
        let ghost step = dispatch_step(v0, rid, message_type, payload@);
        let mut acts: Vec<MuxAction> = Vec::new();
        if rid == 0 {
            return acts;
        }
        let r = (rid - 1) as usize;
        if r >= self.remote.len() || self.remote[r].is_none() {
            return acts;
        }
        let mut target: Option<u32> = None;
        match &self.remote[r] {
            Some(rc) => match rc.local_id {
                Some(l) => {
                    if (l as usize) < self.local.len() {
                        match &self.local[l as usize] {
                            Some(ch) => {
                                if ch.opened {
                                    target = Some(l);
                                }
                            },
                            None => {},
                        }
                    }
                },
                None => {},
            },
            None => {},
        }
        match target {
            Some(l) => {
                let data = vstd::slice::slice_to_vec(payload);
                acts.push(MuxAction::Deliver {
                    local_id: l + 1,
                    event: ChannelEvent::Message { message_type: #[verifier::truncate] (message_type as u32), data },
                });
                proof {
                    assert(actions_view(acts@) =~= step.1);
                }
            },
            None => {
                match self.take_remote(r) {
                    Some(rc) => {
                        let RemoteChannel { handshake_state, local_id, pending } = rc;
                        let mut pending = pending;
                        let ghost pv = pending@;
                        pending.push((message_type, vstd::slice::slice_to_vec(payload)));
                        proof {
                            assert(entries_view(pending@) =~= entries_view(pv).push((message_type, payload@)));
                        }
                        self.set_remote(r, Some(RemoteChannel { handshake_state, local_id, pending }));
                    },
                    None => {},
                }
                proof {
                    assert(self@ =~= step.0);
                }
            },
        }
        acts
    }
}

/// The plain values of a batch item.
pub open spec fn item_view(b: crate::protomux::BatchItem) -> (u64, Seq<u8>) {
    (b.channel_id, b.data@)
}

/// The error of a step as the multiplexer's error, if any.
pub open spec fn outcome(r: Result<(), ProtomuxError>) -> Option<MuxErrorView> {
    match r {
        Ok(()) => None,
        Err(e) => Some(e@),
    }
}

impl MuxState {
    /// The messages of a batch (see [`batch_step`]).
    fn handle_batch(&mut self, items: Vec<crate::protomux::BatchItem>) -> (res: (Vec<MuxAction>, Result<(), ProtomuxError>))
        requires
            old(self).wf(),
        ensures
            final(self).wf(),
            final(self)@ == batch_step(old(self)@, crate::protomux::items_view(items@)).0,
            actions_view(res.0@) == batch_step(old(self)@, crate::protomux::items_view(items@)).1,
            outcome(res.1) == (match batch_step(old(self)@, crate::protomux::items_view(items@)).2 {
                Some(e) => Some(MuxErrorView::Encoding(e)),
                None => None,
            }),
    {
        let ghost v0 = old(self)@;
        let ghost iv = crate::protomux::items_view(items@);
        let mut acts: Vec<MuxAction> = Vec::new();
        let mut i: usize = 0;
        proof {
            assert(iv.skip(0) =~= iv);
            assert(actions_view(acts@) + batch_step(self@, iv).1 =~= batch_step(self@, iv).1);
        }
        while i < items.len()
            invariant
                self.wf(),
                i <= items@.len(),
                iv == crate::protomux::items_view(items@),
                v0 == old(self)@,
                batch_step(v0, iv).0 == batch_step(self@, iv.skip(i as int)).0,
                batch_step(v0, iv).1 == actions_view(acts@) + batch_step(self@, iv.skip(i as int)).1,
                batch_step(v0, iv).2 == batch_step(self@, iv.skip(i as int)).2,
            decreases items@.len() - i,
        {
            let ghost vi = self@;
            let ghost rest = iv.skip(i as int);
            proof {
                assert(rest.len() > 0);
                assert(iv[i as int] == item_view(items@[i as int]));
                assert(rest[0] == iv[i as int]);
                assert(rest.drop_first() =~= iv.skip(i + 1));
            }
            let mut st = State::from_buffer(items[i].data.as_slice());
            proof {
                assert(st.rest() =~= items@[i as int].data@);
            }
            let mt = match crate::protomux::read_uint(&mut st) {
                Ok(v) => v,
                Err(e) => {
                    proof {
                        assert(parse_uint(rest[0].1) is Err);
                        assert(batch_step(vi, rest).0 == vi);
                        assert(actions_view(acts@) + Seq::<ActionView>::empty() =~= actions_view(acts@));
                    }
                    return (acts, Err(e));
                },
            };
            let n = st.end - st.start;
            let payload = read_bytes(&mut st, n);
            let ghost k = (parse_uint(items@[i as int].data@)->Ok_0).1;
            proof {
                assert(payload@ =~= items@[i as int].data@.skip(k as int));
            }
            let ghost before = acts@;
            let mut more = self.dispatch_message(#[verifier::truncate] (items[i].channel_id as u32), mt, payload.as_slice());
            acts.append(&mut more);
            proof {
                let d = dispatch_step(vi, #[verifier::truncate] (iv[i as int].0 as u32), mt, iv[i as int].1.skip(k as int));
                assert(actions_view(acts@) =~= actions_view(before) + d.1);
                assert(batch_step(vi, rest).1 =~= d.1 + batch_step(self@, iv.skip(i + 1)).1);
                assert(batch_step(v0, iv).1 =~= actions_view(acts@) + batch_step(self@, iv.skip(i + 1)).1);
            }
            i = i + 1;
        }
        proof {
            assert(iv.skip(i as int) =~= Seq::<(u64, Seq<u8>)>::empty());
            assert(actions_view(acts@) + Seq::<ActionView>::empty() =~= actions_view(acts@));
        }
        (acts, Ok(()))
    }

    /// Whether a frame would abort the multiplexer (see [`frame_aborts`]).
    pub fn frame_aborts(&self, data: &[u8]) -> (b: bool)
        ensures
            b == frame_aborts(self@, data@),
    {
        match decode_frame(data) {
            Ok(DecodedFrame::Control(ControlFrame::Reject { remote_id })) => !self.reject_names_slot(remote_id),
            _ => false,
        }
    }

    /// Handles a frame from the stream (see [`frame_step`]); an error ends
    /// the multiplexer, after the actions that came before it.
    pub fn handle_incoming_frame(&mut self, data: &[u8]) -> (res: (Vec<MuxAction>, Result<(), ProtomuxError>))
        requires
            old(self).wf(),
            !frame_aborts(old(self)@, data@),
        ensures
            final(self).wf(),
            final(self)@ == frame_step(old(self)@, data@).0,
            actions_view(res.0@) == frame_step(old(self)@, data@).1,
            outcome(res.1) == frame_step(old(self)@, data@).2,
    {
        let ghost v0 = old(self)@;
        match decode_frame(data) {
            Err(e) => (Vec::new(), Err(e)),
            Ok(frame) => match frame {
                DecodedFrame::Control(ControlFrame::Open { local_id, protocol, id, handshake_state }) => {
                    let (acts, ok) = self.handle_remote_open(local_id, protocol.as_str(), id, handshake_state);
                    if ok {
                        (acts, Ok(()))
                    } else {
                        (acts, Err(ProtomuxError::InvalidFrame("duplicate remote channel ID".to_owned())))
                    }
                },
                DecodedFrame::Control(ControlFrame::Close { local_id }) => (self.handle_remote_close(local_id), Ok(())),
                DecodedFrame::Control(ControlFrame::Reject { remote_id }) => (self.handle_remote_reject(remote_id), Ok(())),
                DecodedFrame::Message { channel_id, message_type, payload } => (
                    self.dispatch_message(#[verifier::truncate] (channel_id as u32), message_type, payload.as_slice()),
                    Ok(()),
                ),
                DecodedFrame::Batch(items) => self.handle_batch(items),
            },
        }
    }

    /// Takes a frame read from the stream (see [`read_step`]).
    pub fn on_frame(&mut self, data: &[u8]) -> (res: (Vec<MuxAction>, Result<(), ProtomuxError>))
        requires
            old(self).wf(),
            !frame_aborts(old(self)@, data@),
        ensures
            final(self).wf(),
            final(self)@ == read_step(old(self)@, data@).0,
            actions_view(res.0@) == read_step(old(self)@, data@).1,
            outcome(res.1) == read_step(old(self)@, data@).2,
    {
        if data.len() == 0 {
            proof {
                assert(actions_view(Seq::<MuxAction>::empty()) =~= Seq::<ActionView>::empty());
            }
            return (Vec::new(), Ok(()));
        }
        self.handle_incoming_frame(data)
    }

    /// The stream ended (see [`shutdown_step`]).
    pub fn shutdown_all(&mut self) -> (acts: Vec<MuxAction>)
        requires
            old(self).wf(),
        ensures
            final(self).wf(),
            final(self)@ == shutdown_step(old(self)@).0,
            actions_view(acts@) == shutdown_step(old(self)@).1,
    {
        let ghost v0 = old(self)@;
        let mut acts: Vec<MuxAction> = Vec::new();
        let mut i: usize = 0;
        while i < self.local.len()
            invariant
                keys_distinct(self.infos@),
                i <= self.local@.len(),
                self.local@.len() == v0.local.len(),
                v0.local.len() <= u32::MAX,
                self@ == (MuxView {
                    local: v0.local.take(i as int).map_values(|c: Option<LocalView>| close_slot(c)) + v0.local.skip(i as int),
                    ..v0
                }),
                actions_view(acts@) == shutdown_actions(v0.local.take(i as int)),
            decreases self.local@.len() - i,
        {
            let ghost before = acts@;
            proof {
                assert(v0.local.take(i + 1).drop_last() =~= v0.local.take(i as int));
                assert(self@.local[i as int] == v0.local[i as int]);
            }
            match self.take_local(i) {
                Some(ch) => {
                    if !ch.closed {
                        acts.push(MuxAction::Deliver { local_id: (i + 1) as u32, event: ChannelEvent::Closed { is_remote: true } });
                    }
                    let LocalChannel { protocol: cp, id: cid, remote_id: cr, opened: co, closed: _ } = ch;
                    self.set_local(i, Some(LocalChannel { protocol: cp, id: cid, remote_id: cr, opened: co, closed: true }));
                },
                None => {
                    self.set_local(i, None);
                },
            }
            proof {
                assert(self@.local =~= v0.local.take(i + 1).map_values(|c: Option<LocalView>| close_slot(c)) + v0.local.skip(i + 1));
                assert(actions_view(acts@) =~= shutdown_actions(v0.local.take(i + 1)));
            }
            i = i + 1;
        }
        proof {
            assert(v0.local.take(i as int) =~= v0.local);
            assert(self@.local =~= v0.local.map_values(|c: Option<LocalView>| close_slot(c)));
            assert(self@ =~= shutdown_step(v0).0);
        }
        acts
    }
}

/// The length of the compact encoding of `n`.
fn uint_len(n: u64) -> (k: u128)
    ensures
        k == uint_size(n),
{
    if n <= 0xfc {
        1
    } else if n <= 0xffff {
        3
    } else if n <= 0xffff_ffff {
        5
    } else {
        9
    }
}

/// Whether an open frame with these fields fits in memory (see [`open_fits`]).
pub fn open_frame_fits(protocol: &str, id: &Option<Vec<u8>>, handshake: &Option<Vec<u8>>) -> (b: bool)
    ensures
        b == open_fits(protocol@, opt_vec(*id), opt_vec(*handshake)),
{
    let n = protocol.as_bytes().len();
    let mut total: u128 = 11 + uint_len(n as u64) + n as u128;
    match id {
        Some(v) => {
            total = total + uint_len(v.len() as u64) + v.len() as u128;
        },
        None => {
            total = total + 1;
        },
    }
    match handshake {
        Some(v) => {
            total = total + v.len() as u128;
        },
        None => {},
    }
    total <= usize::MAX as u128
}

// ── Laws ────────────────────────────────────────────────────────────────────

/// No channel of either side waits under `key`.
pub open spec fn none_waiting(v: MuxView, key: Seq<char>) -> bool {
    info_of(v.infos, key).outgoing.len() == 0 && info_of(v.infos, key).incoming.len() == 0
}

/// Remote channel `rid` is not in use.
pub open spec fn remote_free(v: MuxView, rid: u32) -> bool {
    !(rid - 1 < v.remote.len() && v.remote[rid - 1] is Some)
}

/// A channel opened here and then by the remote side under the same
/// protocol and id is paired: it is opened with the remote's handshake data,
/// and the remote channel points back at it.
pub proof fn lemma_local_then_remote_open(
    v: MuxView,
    protocol: Seq<char>,
    id: Option<Seq<u8>>,
    handshake: Option<Seq<u8>>,
    remote_handshake: Option<Seq<u8>>,
    remote_local_id: u64,
)
    requires
        mux_wf(v),
        v.local.len() < u32::MAX,
        none_waiting(v, channel_key(protocol, id)),
        remote_local_id as u32 != 0,
        remote_free(v, remote_local_id as u32),
    ensures
        ({
            let (v1, a1, lid) = create_step(v, protocol, id, handshake);
            let (v2, a2, ok) = remote_open_step(v1, remote_local_id, protocol, id, remote_handshake);
            &&& a1 == seq![ActionView::Write(enc_open(lid as u64, protocol, id, handshake))]
            &&& ok
            &&& a2 == seq![ActionView::Opened { local_id: lid, handshake: remote_handshake }]
            &&& v2.local[lid - 1] == Some(
                LocalView { protocol, id, remote_id: Some(remote_local_id as u32), opened: true, closed: false },
            )
            &&& v2.remote[(remote_local_id as u32) - 1] == Some(
                RemoteView { handshake: remote_handshake, local_id: Some((lid - 1) as u32), pending: Seq::empty() },
            )
            &&& none_waiting(v2, channel_key(protocol, id))
        }),
{
    let key = channel_key(protocol, id);
    let (a, slot) = alloc_slot(v);
    let (v1, a1, lid) = create_step(v, protocol, id, handshake);
    assert(v1.infos[key] == InfoView { outgoing: seq![lid], incoming: Seq::<u32>::empty() });
    assert(info_of(v1.infos, key).outgoing =~= seq![lid]);
    let rid = remote_local_id as u32;
    let r = rid - 1;
    let remote = grow(v1.remote, r + 1);
    assert(v1.remote == v.remote);
    if v1.remote.len() <= r {
        assert(remote[r] == Seq::<Option<RemoteView>>::new((r + 1 - v1.remote.len()) as nat, |_i: int| None)[r - v1.remote.len()]);
    }
    assert(remote[r] is None);
    let (v2, a2, ok) = remote_open_step(v1, remote_local_id, protocol, id, remote_handshake);
    assert(info_of(v2.infos, key).outgoing =~= Seq::<u32>::empty());
    assert(info_of(v2.infos, key).incoming =~= Seq::<u32>::empty());
}

/// A channel the remote side opened first, and messages sent on it before
/// a local channel exists, reach the local channel opened later under the
/// same protocol and id: it is opened with the remote's handshake data and
/// then receives the messages in order.
pub proof fn lemma_remote_then_local_open(
    v: MuxView,
    protocol: Seq<char>,
    id: Option<Seq<u8>>,
    handshake: Option<Seq<u8>>,
    remote_handshake: Option<Seq<u8>>,
    remote_local_id: u64,
    message_type: u64,
    payload: Seq<u8>,
)
    requires
        mux_wf(v),
        v.local.len() < u32::MAX,
        none_waiting(v, channel_key(protocol, id)),
        remote_local_id as u32 != 0,
        remote_free(v, remote_local_id as u32),
    ensures
        ({
            let rid = remote_local_id as u32;
            let (v1, a1, ok) = remote_open_step(v, remote_local_id, protocol, id, remote_handshake);
            let (v2, a2) = dispatch_step(v1, rid, message_type, payload);
            let (v3, a3, lid) = create_step(v2, protocol, id, handshake);
            &&& ok
            &&& a1.len() == 0
            &&& a2.len() == 0
            &&& a3 == seq![
                ActionView::Write(enc_open(lid as u64, protocol, id, handshake)),
                ActionView::Opened { local_id: lid, handshake: remote_handshake },
                ActionView::Message { local_id: lid, message_type: message_type as u32, data: payload },
            ]
            &&& v3.local[lid - 1] == Some(LocalView { protocol, id, remote_id: Some(rid), opened: true, closed: false })
            &&& none_waiting(v3, channel_key(protocol, id))
        }),
{
    let key = channel_key(protocol, id);
    let rid = remote_local_id as u32;
    let r = rid - 1;
    let remote = grow(v.remote, r + 1);
    if v.remote.len() <= r {
        assert(remote[r] == Seq::<Option<RemoteView>>::new((r + 1 - v.remote.len()) as nat, |_i: int| None)[r - v.remote.len()]);
    }
    assert(remote[r] is None);
    let (v1, a1, ok) = remote_open_step(v, remote_local_id, protocol, id, remote_handshake);
    assert(info_of(v1.infos, key).incoming =~= seq![rid]);
    assert(v1.remote[r] == Some(RemoteView { handshake: remote_handshake, local_id: None, pending: Seq::empty() }));
    let (v2, a2) = dispatch_step(v1, rid, message_type, payload);
    assert(v2.remote[r]->0.pending =~= seq![(message_type, payload)]);
    assert(v2.infos == v1.infos);
    let (v3, a3, lid) = create_step(v2, protocol, id, handshake);
    assert(message_actions(lid, seq![(message_type, payload)]) =~= seq![
        ActionView::Message { local_id: lid, message_type: message_type as u32, data: payload },
    ]);
    assert(a3 =~= seq![
        ActionView::Write(enc_open(lid as u64, protocol, id, handshake)),
        ActionView::Opened { local_id: lid, handshake: remote_handshake },
        ActionView::Message { local_id: lid, message_type: message_type as u32, data: payload },
    ]);
    assert(info_of(v3.infos, key).incoming =~= Seq::<u32>::empty());
}

/// Closing an open channel frees its id, and the next channel opened here
/// takes that id again.
pub proof fn lemma_close_then_create_reuses_id(
    v: MuxView,
    local_id: u32,
    protocol: Seq<char>,
    id: Option<Seq<u8>>,
    handshake: Option<Seq<u8>>,
)
    requires
        mux_wf(v),
        1 <= local_id,
        local_id - 1 < v.local.len(),
        v.local[local_id - 1] matches Some(c) && !c.closed,
    ensures
        ({
            let (v1, a1) = close_step(v, local_id);
            &&& a1 == seq![
                ActionView::Closed { local_id, is_remote: false },
                ActionView::Write(enc_close(local_id as u64)),
                ActionView::Release { local_id },
            ]
            &&& v1.local[local_id - 1] is None
            &&& create_step(v1, protocol, id, handshake).2 == local_id
        }),
{
    let (v1, a1) = close_step(v, local_id);
    assert(a1 =~= seq![
        ActionView::Closed { local_id, is_remote: false },
        ActionView::Write(enc_close(local_id as u64)),
        ActionView::Release { local_id },
    ]);
    assert(v1.free_ids.last() == (local_id - 1) as u32);
}

/// Messages sent while writes are corked go out as one batch frame when
/// they are uncorked, in the order they were sent.
pub proof fn lemma_corked_sends_batch(
    v: MuxView,
    local_id: u32,
    type1: u32,
    data1: Seq<u8>,
    type2: u32,
    data2: Seq<u8>,
)
    requires
        v.cork_depth == 0,
        v.batch.len() == 0,
        1 <= local_id,
        local_id - 1 < v.local.len(),
        v.local[local_id - 1] is Some,
    ensures
        ({
            let v1 = cork_step(v);
            let (v2, a2) = send_step(v1, local_id, type1, data1);
            let (v3, a3) = send_step(v2, local_id, type2, data2);
            let (v4, a4) = uncork_step(v3);
            &&& a2.len() == 0
            &&& a3.len() == 0
            &&& a4 == seq![
                ActionView::Write(
                    enc_batch(
                        seq![
                            (local_id as u64, enc_uint(type1 as u64) + data1),
                            (local_id as u64, enc_uint(type2 as u64) + data2),
                        ],
                    ),
                ),
            ]
            &&& v4.cork_depth == 0
            &&& v4.batch.len() == 0
        }),
{
    let v1 = cork_step(v);
    let (v2, a2) = send_step(v1, local_id, type1, data1);
    let (v3, a3) = send_step(v2, local_id, type2, data2);
    assert(v3.batch =~= seq![
        (local_id as u64, enc_uint(type1 as u64) + data1),
        (local_id as u64, enc_uint(type2 as u64) + data2),
    ]);
}

} // verus!
