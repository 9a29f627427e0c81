//! The DHT node's public configuration and reply types, its error type, and
//! the timing constants of its maintenance loop.
use vstd::prelude::*;
use vstd::string::StringExecFns;
use crate::messages::Ipv4Peer;
use crate::peer::NodeId;

verus! {

/// Milliseconds between two ticks of the maintenance loop.
pub const TICK_INTERVAL_MS: u64 = 5_000;

/// Milliseconds between two drains of the send queue.
pub const DRAIN_INTERVAL_MS: u64 = 750;

/// A gap between ticks longer than this means the host was asleep.
pub const SLEEPING_INTERVAL_MS: u64 = 15_000;

/// Ticks between two refreshes of the routing table.
pub const REFRESH_TICKS: u64 = 60;

/// A node seen within this many ticks is recent.
pub const RECENT_NODE: u64 = 12;

/// A node not seen for this many ticks is old.
pub const OLD_NODE: u64 = 360;

/// The most nodes pinged again at once.
pub const MAX_REPINGING: u32 = 3;

/// The most down hints handled per tick.
pub const DOWN_HINTS_RATE_LIMIT: u32 = 50;

/// The error code of a reply to an unknown command.
pub const ERR_UNKNOWN_COMMAND: u64 = 1;

/// `Duration::clone`: `Duration` is `Copy`, so its clone is the same duration.
pub assume_specification[ <core::time::Duration as Clone>::clone ](d: &core::time::Duration) -> (r: core::time::Duration)
    ensures
        r == *d,
;

/// Errors of the DHT node.
#[derive(Debug)]
#[non_exhaustive]
pub enum DhtError {
    /// The socket layer failed; the text says how.
    Io(String),
    /// The node has been destroyed.
    Destroyed,
    /// The internal command channel is closed.
    ChannelClosed,
    /// Bootstrapping did not complete.
    BootstrapFailed,
    /// A request failed with this message.
    RequestFailed(String),
}

/// `prefix` followed by `detail`.
fn join_text(prefix: &str, detail: &str) -> (s: String)
    ensures
        s@ == prefix@ + detail@,
{
    let mut s = prefix.to_owned();
    s.append(detail);
    s
}

impl DhtError {
    /// The message of the error.
    pub open spec fn message(&self) -> Seq<char> {
        match self {
            DhtError::Io(m) => "IO error: "@ + m@,
            DhtError::Destroyed => "node destroyed"@,
            DhtError::ChannelClosed => "command channel closed"@,
            DhtError::BootstrapFailed => "bootstrap failed"@,
            DhtError::RequestFailed(m) => "request failed: "@ + m@,
        }
    }

    /// The message of the error, as text.
    pub fn to_string(&self) -> (s: String)
        ensures
            s@ == self.message(),
    {
        match self {
            DhtError::Io(m) => join_text("IO error: ", m.as_str()),
            DhtError::Destroyed => "node destroyed".to_owned(),
            DhtError::ChannelClosed => "command channel closed".to_owned(),
            DhtError::BootstrapFailed => "bootstrap failed".to_owned(),
            DhtError::RequestFailed(m) => join_text("request failed: ", m.as_str()),
        }
    }
}

/// How a DHT node is set up.
#[derive(Debug, Clone)]
#[non_exhaustive]
pub struct DhtConfig {
    /// Bootstrap node addresses.
    pub bootstrap: Vec<String>,
    /// Local port to bind.
    pub port: u16,
    /// Local host to bind.
    pub host: String,
    /// Whether to force ephemeral mode.
    pub ephemeral: Option<bool>,
    /// Whether to advertise as firewalled.
    pub firewalled: bool,
    /// Query concurrency limit.
    pub concurrency: usize,
    /// Maximum query window size.
    pub max_window: usize,
}

impl Default for DhtConfig {
    /// No bootstrap nodes, any port on every interface, ephemeral mode chosen
    /// from the bootstrap list, firewalled, 10 queries at once, a window of 80.
    fn default() -> (c: Self)
        ensures
            c.bootstrap@.len() == 0,
            c.port == 0,
            c.host@ == "0.0.0.0"@,
            c.ephemeral is None,
            c.firewalled,
            c.concurrency == 10,
            c.max_window == 80,
    {
        DhtConfig {
            bootstrap: Vec::new(),
            port: 0,
            host: "0.0.0.0".to_owned(),
            ephemeral: None,
            firewalled: true,
            concurrency: 10,
            max_window: 80,
        }
    }
}

/// A reply to a ping.
#[derive(Debug, Clone)]
#[non_exhaustive]
pub struct PingResponse {
    /// The peer that replied.
    pub from: Ipv4Peer,
    /// The id the peer reported.
    pub id: Option<NodeId>,
    /// The round trip time.
    pub rtt: core::time::Duration,
    /// Our address as the peer saw it.
    pub to: Option<Ipv4Peer>,
    /// The nodes the peer suggested.
    pub closer_nodes: Vec<Ipv4Peer>,
}

/// The data of a reply to a request.
#[derive(Debug, Clone)]
#[non_exhaustive]
pub struct ResponseData {
    /// The peer that replied.
    pub from: Ipv4Peer,
    /// The id the peer reported.
    pub id: Option<NodeId>,
    /// The round-trip token.
    pub token: Option<[u8; 32]>,
    /// The nodes the peer suggested.
    pub closer_nodes: Vec<Ipv4Peer>,
    /// The error code of the reply.
    pub error: u64,
    /// The value of the reply.
    pub value: Option<Vec<u8>>,
    /// The round trip time.
    pub rtt: core::time::Duration,
}

/// The parameters of a query driven by the user.
#[derive(Debug, Clone)]
pub struct UserQueryParams {
    /// The target id.
    pub target: NodeId,
    /// The command to send.
    pub command: u64,
    /// The payload.
    pub value: Option<Vec<u8>>,
    /// Whether the query commits.
    pub commit: bool,
    /// A concurrency for this query alone.
    pub concurrency: Option<usize>,
}

/// The parameters of a request driven by the user.
#[derive(Debug, Clone)]
pub struct UserRequestParams {
    /// The round-trip token.
    pub token: Option<[u8; 32]>,
    /// The command to send.
    pub command: u64,
    /// The target id.
    pub target: Option<NodeId>,
    /// The payload.
    pub value: Option<Vec<u8>>,
}

// ── Ticks ───────────────────────────────────────────────────────────────────

/// The node's clock in ticks, and the ticks left until the next refresh.
#[derive(Clone, Copy)]
pub struct TickState {
    pub tick: u64,
    pub refresh_ticks: u64,
}

/// What a tick asks of the node.
#[derive(Clone, Copy)]
pub struct TickActions {
    /// Ping a few of the least recently seen nodes.
    pub ping_some: bool,
    /// Refresh the routing table.
    pub refresh: bool,
}

/// The tick after `tick` when `elapsed_ms` passed since the last one: one
/// more, or, after a sleep longer than [`SLEEPING_INTERVAL_MS`], twice
/// [`OLD_NODE`] more and then up to the next multiple of 8 above.
pub open spec fn next_tick(tick: u64, elapsed_ms: u64) -> int {
    if elapsed_ms > SLEEPING_INTERVAL_MS {
        let t = tick + 2 * OLD_NODE;
        t + 8 - t % 8
    } else {
        tick + 1
    }
}

/// One tick: the clock advances (see [`next_tick`]); after a sleep the
/// refresh comes due at once. A node that is not bootstrapped does nothing
/// more. Otherwise every tick that is a multiple of 8 pings some nodes, and
/// when the refresh count runs out it starts again at [`REFRESH_TICKS`] and
/// the table is refreshed.
pub open spec fn tick_spec(s: TickState, elapsed_ms: u64, bootstrapped: bool) -> (TickState, TickActions) {
    let tick = next_tick(s.tick, elapsed_ms) as u64;
    let r0 = if elapsed_ms > SLEEPING_INTERVAL_MS {
        1
    } else {
        s.refresh_ticks
    };
    if !bootstrapped {
        (TickState { tick, refresh_ticks: r0 }, TickActions { ping_some: false, refresh: false })
    } else {
        let r1: u64 = if r0 > 0 {
            (r0 - 1) as u64
        } else {
            0
        };
        (
            TickState { tick, refresh_ticks: if r1 == 0 { REFRESH_TICKS } else { r1 } },
            TickActions { ping_some: tick % 8 == 0, refresh: r1 == 0 },
        )
    }
}

/// One tick of the node's clock (see [`tick_spec`]).
pub fn tick_step(s: TickState, elapsed_ms: u64, bootstrapped: bool) -> (r: (TickState, TickActions))
    requires
        s.tick + 2 * OLD_NODE + 8 <= u64::MAX,
    ensures
        r == tick_spec(s, elapsed_ms, bootstrapped),
{
    let mut tick = s.tick;
    let mut refresh_ticks = s.refresh_ticks;
    if elapsed_ms > SLEEPING_INTERVAL_MS {
        tick = tick + 2 * OLD_NODE;
        tick = tick + 8 - tick % 8;
        refresh_ticks = 1;
    } else {
        tick = tick + 1;
    }
    if !bootstrapped {
        return (TickState { tick, refresh_ticks }, TickActions { ping_some: false, refresh: false });
    }
    let ping_some = tick % 8 == 0;
    refresh_ticks = if refresh_ticks > 0 {
        refresh_ticks - 1
    } else {
        0
    };
    let mut refresh = false;
    if refresh_ticks == 0 {
        refresh_ticks = REFRESH_TICKS;
        refresh = true;
    }
    (TickState { tick, refresh_ticks }, TickActions { ping_some, refresh })
}

// ── A full bucket ───────────────────────────────────────────────────────────

/// A node not pinged this tick can be pinged again.
pub open spec fn repingable(n: crate::routing_table::Node, tick: u64) -> bool {
    n.pinged_tick < tick
}

/// `a` was pinged longer ago than `b`, or at the same tick and added earlier.
pub open spec fn older(a: crate::routing_table::Node, b: crate::routing_table::Node) -> bool {
    a.pinged_tick < b.pinged_tick || (a.pinged_tick == b.pinged_tick && a.added_tick < b.added_tick)
}

/// Position `i` holds the node to ping again: the first of the nodes not
/// pinged this tick that were pinged longest ago, earliest added first.
pub open spec fn is_reping_candidate(close: Seq<crate::routing_table::Node>, tick: u64, i: int) -> bool {
    &&& 0 <= i < close.len()
    &&& repingable(close[i], tick)
    &&& forall|j: int| 0 <= j < close.len() && repingable(#[trigger] close[j], tick) ==> !older(close[j], close[i])
    &&& forall|j: int| 0 <= j < i && repingable(#[trigger] close[j], tick) ==> older(close[i], close[j])
}

/// The node to ping again among `close` (see [`is_reping_candidate`]); none
/// when every one was pinged this tick.
pub fn reping_candidate(close: &[crate::routing_table::Node], tick: u64) -> (r: Option<usize>)
    ensures
        match r {
            Some(i) => is_reping_candidate(close@, tick, i as int),
            None => forall|j: int| 0 <= j < close@.len() ==> !repingable(#[trigger] close@[j], tick),
        },
{
    let mut best: Option<usize> = None;
    let mut i: usize = 0;
    while i < close.len()
        invariant
            i <= close@.len(),
            match best {
                Some(b) => is_reping_candidate(close@.take(i as int), tick, b as int),
                None => forall|j: int| 0 <= j < i ==> !repingable(#[trigger] close@[j], tick),
            },
        decreases close@.len() - i,
    {
        let ghost pre = close@.take(i as int);
        let ghost post = close@.take(i + 1);
        proof {
            assert forall|j: int| 0 <= j < i implies post[j] == pre[j] && pre[j] == close@[j] by {}
            assert(post[i as int] == close@[i as int]);
        }
        if close[i].pinged_tick < tick {
            match best {
                None => {
                    best = Some(i);
                },
                Some(b) => {
                    let nb = &close[b];
                    let ni = &close[i];
                    if ni.pinged_tick < nb.pinged_tick || (ni.pinged_tick == nb.pinged_tick && ni.added_tick < nb.added_tick) {
                        best = Some(i);
                    }
                },
            }
        }
        proof {
            match best {
                Some(b) => {
                    assert(close@[b as int] == pre[b as int] || b == i);
                },
                None => {},
            }
        }
        i = i + 1;
    }
    proof {
        assert(close@.take(i as int) =~= close@);
    }
    best
}

/// A node seen within [`RECENT_NODE`] ticks that has been in the table for
/// more than [`OLD_NODE`] ticks is kept without a ping.
pub open spec fn keep_without_ping(tick: u64, last_seen: u64, added: u64) -> bool {
    tick - last_seen < RECENT_NODE && tick - added > OLD_NODE
}

/// Which node to ping again when a bucket is full and refuses a new node:
/// none before bootstrap or while [`MAX_REPINGING`] pings are out; else the
/// reping candidate among the closest nodes, unless it is to be kept
/// without a ping (see [`keep_without_ping`]).
pub fn bucket_full_reping(bootstrapped: bool, repinging: u32, close: &[crate::routing_table::Node], tick: u64) -> (r: Option<usize>)
    requires
        forall|j: int| 0 <= j < close@.len() ==> (#[trigger] close@[j]).seen_tick <= tick,
    ensures
        (!bootstrapped || repinging >= MAX_REPINGING) ==> r is None,
        (bootstrapped && repinging < MAX_REPINGING) ==> match r {
            Some(i) => is_reping_candidate(close@, tick, i as int) && !keep_without_ping(
                tick,
                close@[i as int].seen_tick,
                close@[i as int].added_tick,
            ),
            None => forall|i: int|
                #![trigger close@[i]]
                is_reping_candidate(close@, tick, i) ==> keep_without_ping(tick, close@[i].seen_tick, close@[i].added_tick),
        },
{
    if !bootstrapped || repinging >= MAX_REPINGING {
        return None;
    }
    match reping_candidate(close, tick) {
        None => None,
        Some(i) => {
            let n = &close[i];
            let added_age = if tick > n.added_tick {
                tick - n.added_tick
            } else {
                0
            };
            if tick - n.seen_tick < RECENT_NODE && added_age > OLD_NODE {
                None
            } else {
                proof {
                    assert forall|k: int| is_reping_candidate(close@, tick, k) implies k == i by {
                        if k < i {
                            assert(older(close@[i as int], close@[k]));
                        } else if k > i {
                            assert(older(close@[k], close@[i as int]));
                        }
                    }
                }
                Some(i)
            }
        },
    }
}

// ── Down hints ──────────────────────────────────────────────────────────────

/// The node a down hint names: the value's first four bytes as an IPv4
/// host and the next two as a little-endian port; nothing when the value is
/// missing or shorter than six bytes.
pub open spec fn down_hint_spec(value: Option<Seq<u8>>) -> Option<(Seq<char>, u16)> {
    match value {
        Some(v) => if v.len() >= 6 {
            Some((crate::text::ipv4_text(v.take(4)), (v[4] + v[5] * 256) as u16))
        } else {
            None
        },
        None => None,
    }
}

/// The node a down hint names (see [`down_hint_spec`]).
pub fn down_hint_peer(value: &Option<Vec<u8>>) -> (r: Option<Ipv4Peer>)
    ensures
        match r {
            Some(p) => down_hint_spec(crate::compact_encoding::opt_vec(*value)) == Some(p@),
            None => down_hint_spec(crate::compact_encoding::opt_vec(*value)) is None,
        },
{
    match value {
        Some(v) => {
            if v.len() < 6 {
                return None;
            }
            let host = crate::text::format_ipv4(v[0], v[1], v[2], v[3]);
            let port: u16 = v[4] as u16 + v[5] as u16 * 256;
            proof {
                assert(v@.take(4) =~= seq![v@[0], v@[1], v@[2], v@[3]]);
            }
            Some(Ipv4Peer { host, port })
        },
        None => None,
    }
}


} // verus!
