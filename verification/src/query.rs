//! The query engine's pure parts: how a bootstrap address is read, and how
//! the replies closest to the target are kept in order of XOR distance.
use vstd::prelude::*;
use vstd::string::StrSliceExecFns;
use crate::messages::Ipv4Peer;
use crate::peer::NodeId;
use crate::routing_table::{first_diff, id_lt, lemma_first_diff, lemma_id_order};
use crate::text::{parse_u16_range, parse_u16_text, str_chars};
use crate::compact_encoding::le_bytes;
use crate::ipv6_text::parse_ipv4_std;
use crate::routing_table::{bucket_of, closest_order, derefs, take_k, Node, RoutingTable, RoutingTableView};
use crate::messages::peers_view;
use crate::peer::node_id_of;
use crate::compact_encoding::valid_host;

verus! {

// ── Bootstrap addresses ─────────────────────────────────────────────────────

/// Whether `k` is the position of the last `c` in `s`.
pub open spec fn is_last(s: Seq<char>, c: char, k: int) -> bool {
    0 <= k < s.len() && s[k] == c && forall|j: int| k < j < s.len() ==> s[j] != c
}

/// Whether `k` is the position of the first `c` in `s`.
pub open spec fn is_first(s: Seq<char>, c: char, k: int) -> bool {
    0 <= k < s.len() && s[k] == c && forall|j: int| 0 <= j < k ==> s[j] != c
}

/// The text before the first `@` of `h`, or all of `h` when it has none.
pub open spec fn before_at(h: Seq<char>) -> Seq<char> {
    if h.contains('@') {
        h.take(choose|k: int| is_first(h, '@', k))
    } else {
        h
    }
}

/// A bootstrap address `[suggestedIp@]host:port`: the port after the last
/// colon, and the text before it up to the first `@`; none without a colon or
/// with a port that is not a `u16`.
pub open spec fn parse_bootstrap(s: Seq<char>) -> Option<(Seq<char>, u16)> {
    if !s.contains(':') {
        None
    } else {
        let lc = choose|k: int| is_last(s, ':', k);
        match parse_u16_text(s.subrange(lc + 1, s.len() as int)) {
            None => None,
            Some(port) => Some((before_at(s.take(lc)), port)),
        }
    }
}

/// The position of the last `c` in `v`, if any.
fn find_last(v: &Vec<char>, c: char) -> (r: Option<usize>)
    ensures
        match r {
            Some(k) => is_last(v@, c, k as int),
            None => !v@.contains(c),
        },
{
    let mut i = v.len();
    while i > 0
        invariant
            i <= v@.len(),
            forall|j: int| i <= j < v@.len() ==> v@[j] != c,
        decreases i,
    {
        if v[i - 1] == c {
            return Some(i - 1);
        }
        i = i - 1;
    }
    None
}

/// The position of the first `c` in `v`, if any.
fn find_first(v: &Vec<char>, c: char) -> (r: Option<usize>)
    ensures
        match r {
            Some(k) => is_first(v@, c, k as int),
            None => !v@.contains(c),
        },
{
    let mut i: usize = 0;
    while i < v.len()
        invariant
            i <= v@.len(),
            forall|j: int| 0 <= j < i ==> v@[j] != c,
        decreases v@.len() - i,
    {
        if v[i] == c {
            return Some(i);
        }
        i = i + 1;
    }
    None
}

/// Reads a bootstrap address `[suggestedIp@]host:port` (see [`parse_bootstrap`]).
pub fn parse_bootstrap_str(s: &str) -> (r: Option<(String, u16)>)
    ensures
        match r {
            Some((h, p)) => parse_bootstrap(s@) == Some((h@, p)),
            None => parse_bootstrap(s@) is None,
        },
{
    let v = str_chars(s);
    let last_colon = match find_last(&v, ':') {
        Some(k) => k,
        None => return None,
    };
    proof {
        assert(s@.contains(':'));
        let lc = choose|k: int| is_last(s@, ':', k);
        assert(lc == last_colon as int) by {
            if lc < last_colon {
                assert(s@[last_colon as int] != ':');
            } else if lc > last_colon {
                assert(s@[lc] != ':');
            }
        }
    }
    let n = v.len();
    assert(last_colon < n);
    let port = match parse_u16_range(&v, last_colon + 1, n) {
        Some(p) => p,
        None => return None,
    };
    let host_part = s.substring_char(0, last_colon);
    let hv = str_chars(host_part);
    proof {
        assert(host_part@ =~= s@.take(last_colon as int));
    }
    let host = match find_first(&hv, '@') {
        Some(at) => {
            proof {
                let k = choose|k: int| is_first(host_part@, '@', k);
                assert(k == at as int) by {
                    if k < at {
                        assert(host_part@[k] != '@');
                    } else if k > at {
                        assert(host_part@[at as int] != '@');
                    }
                }
                assert(host_part@.subrange(0, at as int) =~= host_part@.take(at as int));
            }
            host_part.substring_char(0, at).to_owned()
        },
        None => host_part.to_owned(),
    };
    Some((host, port))
}

// ── Replies closest to the target ───────────────────────────────────────────

/// A reply gathered by a query.
#[derive(Debug, Clone)]
pub struct QueryReply {
    /// The peer that replied.
    pub from: Ipv4Peer,
    /// The peer's id, present only where the peer proved its address.
    pub from_id: Option<NodeId>,
    /// The round-trip token the peer sent back.
    pub token: Option<[u8; 32]>,
    /// The nodes the peer suggested.
    pub closer_nodes: Vec<Ipv4Peer>,
    /// The error code (0: success).
    pub error: u64,
    /// The value of the reply.
    pub value: Option<Vec<u8>>,
    /// The round trip time.
    pub rtt: core::time::Duration,
}

/// What a finished query gives back.
#[derive(Debug)]
pub struct QueryResult {
    /// Up to k replies, closest to the target first.
    pub closest_replies: Vec<QueryReply>,
    /// The number of replies that succeeded.
    pub successes: u32,
    /// The number of errors and timeouts.
    pub errors: u32,
}

/// The XOR distance of `a` from `t`, byte by byte.
pub open spec fn xor_key(t: Seq<u8>, a: Seq<u8>) -> Seq<u8> {
    Seq::new(32, |i: int| t[i] ^ a[i])
}

/// What [`ClosestReplies::compare`] returns: at the first byte where `a` and
/// `b` differ, the distance byte of `a` minus that of `b`; 0 when they are equal.
pub open spec fn compare_value(t: Seq<u8>, a: Seq<u8>, b: Seq<u8>) -> int {
    let i = first_diff(a, b);
    if 0 <= i < 32 {
        (t[i] ^ a[i]) as int - (t[i] ^ b[i]) as int
    } else {
        0
    }
}

/// The sign of a comparison is the order of the XOR distances.
pub proof fn lemma_compare_value(t: Seq<u8>, a: Seq<u8>, b: Seq<u8>)
    requires
        t.len() == 32,
        a.len() == 32,
        b.len() == 32,
    ensures
        compare_value(t, a, b) < 0 <==> id_lt(xor_key(t, a), xor_key(t, b)),
        compare_value(t, a, b) > 0 <==> id_lt(xor_key(t, b), xor_key(t, a)),
        compare_value(t, a, b) == 0 <==> xor_key(t, a) == xor_key(t, b),
        compare_value(t, a, b) == 0 <==> a == b,
{
    let xa = xor_key(t, a);
    let xb = xor_key(t, b);
    assert forall|j: int| 0 <= j < 32 implies (#[trigger] xa[j] == xb[j]) == (a[j] == b[j]) by {
        let (x, y, z) = (a[j], b[j], t[j]);
        assert((z ^ x == z ^ y) == (x == y)) by (bit_vector);
    }
    lemma_first_diff(a, b);
    lemma_first_diff(xa, xb);
    let i = first_diff(a, b);
    let k = first_diff(xa, xb);
    if k < i {
        assert(a[k] == b[k]);
    }
    if i < k {
        assert(xa[i] == xb[i]);
    }
    if i == 32 {
        assert(xa =~= xb);
    }
    if xa == xb {
        assert(xa[i] == xb[i]);
    }
    lemma_id_order(xa, xb, xb);
}

/// The distance key of a reply with an id.
pub open spec fn reply_key(t: Seq<u8>, r: QueryReply) -> Seq<u8> {
    xor_key(t, r.from_id->0@)
}

/// Every reply has an id and the replies are strictly closer to `t` first.
pub open spec fn sorted_closest(t: Seq<u8>, rs: Seq<QueryReply>) -> bool {
    &&& forall|i: int| 0 <= i < rs.len() ==> (#[trigger] rs[i]).from_id is Some
    &&& forall|i: int, j: int| 0 <= i < j < rs.len() ==> id_lt(reply_key(t, rs[i]), reply_key(t, rs[j]))
}

/// Whether `p` is where a reply with key `key` goes: after every closer reply,
/// before every other.
pub open spec fn insert_position(t: Seq<u8>, rs: Seq<QueryReply>, key: Seq<u8>, p: int) -> bool {
    &&& 0 <= p <= rs.len()
    &&& forall|i: int| 0 <= i < p ==> id_lt(#[trigger] reply_key(t, rs[i]), key)
    &&& forall|i: int| p <= i < rs.len() ==> !id_lt(#[trigger] reply_key(t, rs[i]), key)
}

/// The replies after `r` is offered: unchanged when `r` has no id or a reply
/// at the same distance is already there; else `r` in its place by distance,
/// and the farthest dropped when that makes more than `k`.
pub open spec fn pushed(t: Seq<u8>, k: nat, rs: Seq<QueryReply>, r: QueryReply) -> Seq<QueryReply> {
    match r.from_id {
        None => rs,
        Some(m) => {
            let key = xor_key(t, m@);
            if exists|i: int| 0 <= i < rs.len() && reply_key(t, #[trigger] rs[i]) == key {
                rs
            } else {
                let p = choose|p: int| insert_position(t, rs, key, p);
                let ys = rs.insert(p, r);
                if ys.len() > k {
                    ys.drop_last()
                } else {
                    ys
                }
            }
        },
    }
}

/// The replies of a query closest to its target, at most `k`, closest first.
pub struct ClosestReplies {
    target: NodeId,
    k: usize,
    replies: Vec<QueryReply>,
}

impl ClosestReplies {
    /// The target of the query.
    pub closed spec fn spec_target(&self) -> Seq<u8> {
        self.target@
    }

    /// The most replies kept.
    pub closed spec fn spec_k(&self) -> nat {
        self.k as nat
    }

    /// The replies kept, closest first.
    pub closed spec fn spec_replies(&self) -> Seq<QueryReply> {
        self.replies@
    }

    /// The replies are sorted strictly by distance and no more than `k`.
    pub open spec fn wf(&self) -> bool {
        &&& sorted_closest(self.spec_target(), self.spec_replies())
        &&& self.spec_replies().len() <= self.spec_k()
        &&& self.spec_target().len() == 32
    }

    /// No replies yet, for `target`, keeping at most `k`.
    pub fn new(target: NodeId, k: usize) -> (c: Self)
        ensures
            c.wf(),
            c.spec_target() == target@,
            c.spec_k() == k,
            c.spec_replies().len() == 0,
    {
        ClosestReplies { target, k, replies: Vec::new() }
    }

    /// The replies kept, closest first.
    pub fn replies(&self) -> (r: &Vec<QueryReply>)
        ensures
            r@ == self.spec_replies(),
    {
        &self.replies
    }

    /// The most replies kept.
    pub fn k(&self) -> (r: usize)
        ensures
            r == self.spec_k(),
    {
        self.k
    }

    /// Compares the distances of `a` and `b` from the target: negative when
    /// `a` is closer, positive when `b` is, zero when they are the same id.
    pub fn compare(&self, a: &NodeId, b: &NodeId) -> (r: i32)
        ensures
            r == compare_value(self.spec_target(), a@, b@),
    {
        let mut i: usize = 0;
        while i < 32
            invariant
                i <= 32,
                forall|j: int| 0 <= j < i ==> a@[j] == b@[j],
            decreases 32 - i,
        {
            if a[i] != b[i] {
                let t = self.target[i];
                proof {
                    lemma_first_diff(a@, b@);
                    let d = first_diff(a@, b@);
                    if d < i {
                        assert(a@[d] == b@[d]);
                    }
                    if d > i {
                        assert(a@[i as int] == b@[i as int]);
                    }
                }
                return (t ^ a[i]) as i32 - (t ^ b[i]) as i32;
            }
            i = i + 1;
        }
        proof {
            lemma_first_diff(a@, b@);
            if first_diff(a@, b@) < 32 {
                assert(a@[first_diff(a@, b@)] == b@[first_diff(a@, b@)]);
            }
        }
        0
    }

    /// Whether a node with `id` would be kept: there is room, or it is closer
    /// than the farthest reply kept.
    pub fn is_closer(&self, id: &NodeId) -> (b: bool)
        requires
            self.wf(),
            self.spec_replies().len() > 0 || self.spec_k() > 0,
        ensures
            b == (self.spec_replies().len() < self.spec_k() || id_lt(
                xor_key(self.spec_target(), id@),
                reply_key(self.spec_target(), self.spec_replies().last()),
            )),
    {
        if self.replies.len() < self.k {
            return true;
        }
        let last = &self.replies[self.replies.len() - 1];
        match last.from_id {
            Some(last_id) => {
                proof {
                    lemma_compare_value(self.target@, id@, last_id@);
                }
                self.compare(id, &last_id) < 0
            },
            None => true,
        }
    }

    /// Offers a reply: it is kept in its place by distance, unless it has no
    /// id or one at the same distance is there; then the farthest is dropped
    /// if there are more than `k`.
    pub fn push_closest(&mut self, reply: QueryReply)
        requires
            old(self).wf(),
        ensures
            final(self).wf(),
            final(self).spec_target() == old(self).spec_target(),
            final(self).spec_k() == old(self).spec_k(),
            final(self).spec_replies() == pushed(
                old(self).spec_target(),
                old(self).spec_k(),
                old(self).spec_replies(),
                reply,
            ),
    {
        let ghost t = self.target@;
        let ghost rs = self.replies@;
        let m = match reply.from_id {
            Some(id) => id,
            None => return ,
        };
        let ghost key = xor_key(t, m@);
        let mut i = self.replies.len();
        let mut stop = false;
        while !stop && i > 0
            invariant
                i <= rs.len(),
                rs == self.replies@,
                rs == old(self).spec_replies(),
                t == self.target@,
                t == old(self).spec_target(),
                self.k == old(self).spec_k(),
                t.len() == 32,
                sorted_closest(t, rs),
                rs.len() <= self.k,
                key == xor_key(t, m@),
                reply.from_id == Some(m),
                stop ==> i > 0 && id_lt(reply_key(t, rs[i - 1]), key),
                forall|j: int| i <= j < rs.len() ==> id_lt(key, #[trigger] reply_key(t, rs[j])),
            decreases i + (if stop { 0int } else { 1int }),
        {
            match self.replies[i - 1].from_id {
                Some(prev_id) => {
                    let order = self.compare(&prev_id, &m);
                    proof {
                        lemma_compare_value(t, prev_id@, m@);
                    }
                    if order < 0 {
                        stop = true;
                    } else if order == 0 {
                        proof {
                            assert(reply_key(t, rs[i - 1]) == key);
                            assert(exists|j: int| 0 <= j < rs.len() && reply_key(t, #[trigger] rs[j]) == key);
                            assert(pushed(t, self.k as nat, rs, reply) == rs);
                        }
                        return ;
                    } else {
                        i = i - 1;
                    }
                },
                None => {
                    proof {
                        assert(rs[i - 1].from_id is Some);
                    }
                    stop = true;
                },
            }
        }
        proof {
            assert(i > 0 ==> id_lt(reply_key(t, rs[i - 1]), key));
            assert forall|j: int| 0 <= j < i implies id_lt(#[trigger] reply_key(t, rs[j]), key) by {
                if j < i - 1 {
                    lemma_id_order(reply_key(t, rs[j]), reply_key(t, rs[i - 1]), key);
                }
            }
            assert forall|j: int| i <= j < rs.len() implies !id_lt(#[trigger] reply_key(t, rs[j]), key) by {
                lemma_id_order(key, reply_key(t, rs[j]), key);
            }
            assert forall|j: int| 0 <= j < rs.len() implies reply_key(t, #[trigger] rs[j]) != key by {
                lemma_id_order(key, key, key);
            }
            assert(insert_position(t, rs, key, i as int));
            let p = choose|p: int| insert_position(t, rs, key, p);
            assert(p == i) by {
                if p < i {
                    assert(id_lt(reply_key(t, rs[p]), key));
                }
                if p > i {
                    assert(id_lt(reply_key(t, rs[i as int]), key));
                }
            }
        }
        self.replies.insert(i, reply);
        let ghost ys = self.replies@;
        proof {
            assert(ys == rs.insert(i as int, reply));
            assert forall|a: int, b: int| 0 <= a < b < ys.len() implies id_lt(
                reply_key(t, ys[a]),
                reply_key(t, ys[b]),
            ) by {
                if b < i {
                    assert(ys[a] == rs[a] && ys[b] == rs[b]);
                } else if b == i {
                    assert(ys[a] == rs[a]);
                } else if a < i {
                    assert(ys[a] == rs[a] && ys[b] == rs[b - 1]);
                    lemma_id_order(reply_key(t, rs[a]), key, reply_key(t, rs[b - 1]));
                } else if a == i {
                    assert(ys[b] == rs[b - 1]);
                } else {
                    assert(ys[a] == rs[a - 1] && ys[b] == rs[b - 1]);
                }
            }
            assert forall|a: int| 0 <= a < ys.len() implies (#[trigger] ys[a]).from_id is Some by {
                if a < i {
                    assert(ys[a] == rs[a]);
                } else if a > i {
                    assert(ys[a] == rs[a - 1]);
                }
            }
        }
        if self.replies.len() > self.k {
            self.replies.pop();
            proof {
                assert(self.replies@ =~= ys.drop_last());
            }
        }
    }
}

// ── The iterative query ─────────────────────────────────────────────────────

/// The wire code of the down-hint command.
pub const DOWN_HINT_CMD: u64 = 3;

/// A node waiting to be asked.
pub struct QueryNode {
    /// Its id.
    pub id: NodeId,
    /// Its host.
    pub host: String,
    /// Its port.
    pub port: u16,
}

/// What the query knows of an address.
pub enum SeenState {
    /// Waiting to be asked; the peers that suggested it.
    Pending(Vec<Ipv4Peer>),
    /// Answered, with success or an application error.
    Done,
    /// Timed out.
    Down,
}

/// The parameters of a request the node sends for a query.
pub struct RequestParams {
    /// Where to send it.
    pub to: Ipv4Peer,
    /// The round-trip token, for commits.
    pub token: Option<[u8; 32]>,
    /// Whether the command is an internal one.
    pub internal: bool,
    /// The command.
    pub command: u64,
    /// The target, if any.
    pub target: Option<NodeId>,
    /// The value, if any.
    pub value: Option<Vec<u8>>,
}

/// A request the query wants sent.
pub enum QueryRequest {
    /// A first-phase request; its reply comes back to the query.
    Query(RequestParams),
    /// A commit; its completion comes back as `on_commit_done`.
    Commit(RequestParams),
    /// A down-hint, sent and forgotten.
    DownHint(RequestParams),
}

/// A reply to a first-phase request.
pub struct IoResponseData {
    /// Who answered.
    pub from: Ipv4Peer,
    /// Its id, where it proved its address.
    pub from_id: Option<NodeId>,
    /// Its round-trip token.
    pub token: Option<[u8; 32]>,
    /// The nodes it suggests.
    pub closer_nodes: Vec<Ipv4Peer>,
    /// The error code (0: success).
    pub error: u64,
    /// The value of the reply.
    pub value: Option<Vec<u8>>,
    /// The round trip time.
    pub rtt: core::time::Duration,
}

/// What the query knows of an address, as values.
pub enum SeenView {
    Pending(Seq<(Seq<char>, u16)>),
    Done,
    Down,
}

/// Request parameters as values.
pub struct ParamsView {
    pub to: (Seq<char>, u16),
    pub token: Option<Seq<u8>>,
    pub internal: bool,
    pub command: u64,
    pub target: Option<Seq<u8>>,
    pub value: Option<Seq<u8>>,
}

/// A request as values.
pub enum RequestView {
    Query(ParamsView),
    Commit(ParamsView),
    DownHint(ParamsView),
}

/// A query as values.
pub struct QueryView {
    pub id: u64,
    pub target: Seq<u8>,
    pub internal: bool,
    pub command: u64,
    pub value: Option<Seq<u8>>,
    pub k: nat,
    pub concurrency: nat,
    pub commit: bool,
    pub inflight: nat,
    pub slowdown: bool,
    pub successes: nat,
    pub errors: nat,
    pub from_table: bool,
    pub committing: bool,
    pub commit_inflight: nat,
    pub seen: Seq<((Seq<char>, u16), SeenView)>,
    pub pending: Seq<(Seq<u8>, (Seq<char>, u16))>,
    pub closest: Seq<QueryReply>,
    pub finished: bool,
    pub result: Option<(Seq<ReplyView>, nat, nat)>,
    pub own_id: Seq<u8>,
}

/// A reply as values.
pub struct ReplyView {
    pub from: (Seq<char>, u16),
    pub from_id: Option<Seq<u8>>,
    pub token: Option<Seq<u8>>,
    pub closer_nodes: Seq<(Seq<char>, u16)>,
    pub error: u64,
    pub value: Option<Seq<u8>>,
    pub rtt: core::time::Duration,
}

/// An optional 32-byte id or token as bytes.
pub open spec fn opt_bytes32(o: Option<[u8; 32]>) -> Option<Seq<u8>> {
    match o {
        Some(x) => Some(x@),
        None => None,
    }
}

/// An optional byte vector as bytes.
pub open spec fn opt_vec(o: Option<Vec<u8>>) -> Option<Seq<u8>> {
    match o {
        Some(x) => Some(x@),
        None => None,
    }
}

/// A reply as values.
pub open spec fn reply_view(r: QueryReply) -> ReplyView {
    ReplyView {
        from: r.from@,
        from_id: opt_bytes32(r.from_id),
        token: opt_bytes32(r.token),
        closer_nodes: peers_view(r.closer_nodes@),
        error: r.error,
        value: opt_vec(r.value),
        rtt: r.rtt,
    }
}

/// Replies as values.
pub open spec fn replies_view(rs: Seq<QueryReply>) -> Seq<ReplyView> {
    rs.map_values(|r: QueryReply| reply_view(r))
}

/// The first index at or after `from` of `key` in `seen`.
pub open spec fn seen_index(seen: Seq<((Seq<char>, u16), SeenView)>, key: (Seq<char>, u16), from: int) -> Option<int>
    decreases seen.len() - from,
{
    if from < 0 || from >= seen.len() {
        None
    } else if seen[from].0 == key {
        Some(from)
    } else {
        seen_index(seen, key, from + 1)
    }
}

/// What `seen` says of `key`.
pub open spec fn seen_get(seen: Seq<((Seq<char>, u16), SeenView)>, key: (Seq<char>, u16)) -> Option<SeenView> {
    match seen_index(seen, key, 0) {
        Some(i) => Some(seen[i].1),
        None => None,
    }
}

/// `seen` with `key` set to `st`: in its place if it is there, else added.
pub open spec fn seen_put(seen: Seq<((Seq<char>, u16), SeenView)>, key: (Seq<char>, u16), st: SeenView) -> Seq<((Seq<char>, u16), SeenView)> {
    match seen_index(seen, key, 0) {
        Some(i) => seen.update(i, (key, st)),
        None => seen.push((key, st)),
    }
}

/// Whether a node with `id` would be kept among the closest replies.
pub open spec fn closer_spec(q: QueryView, id: Seq<u8>) -> bool {
    q.closest.len() < q.k || id_lt(xor_key(q.target, id), reply_key(q.target, q.closest.last()))
}

/// The down-hint that tells `to` that `down` is down: `down` must be
/// dotted-quad IPv4 text, sent as its four bytes and its port.
pub open spec fn down_hint_of(to: (Seq<char>, u16), down: (Seq<char>, u16)) -> Option<RequestView> {
    match parse_ipv4_std(down.0) {
        None => None,
        Some(b) => Some(
            RequestView::DownHint(
                ParamsView {
                    to,
                    token: None,
                    internal: true,
                    command: DOWN_HINT_CMD,
                    target: None,
                    value: Some(b + le_bytes(down.1 as nat, 2)),
                },
            ),
        ),
    }
}

/// Offers a node to the pending list: whether the caller should stop
/// offering the nodes that came with it, and a down-hint where the node is
/// known to be down and someone suggested it.
pub open spec fn add_pending_spec(q: QueryView, id: Seq<u8>, key: (Seq<char>, u16), referrer: Option<(Seq<char>, u16)>) -> (QueryView, bool, Option<RequestView>) {
    let closer = closer_spec(q, id);
    match seen_get(q.seen, key) {
        Some(SeenView::Done) => (q, !closer, None),
        Some(SeenView::Down) => (
            q,
            !closer,
            match referrer {
                Some(r) => down_hint_of(r, key),
                None => None,
            },
        ),
        Some(SeenView::Pending(refs)) => (
            match referrer {
                Some(r) => QueryView { seen: seen_put(q.seen, key, SeenView::Pending(refs.push(r))), ..q },
                None => q,
            },
            !closer,
            None,
        ),
        None => if !closer {
            (q, true, None)
        } else {
            let refs = match referrer {
                Some(r) => seq![r],
                None => Seq::empty(),
            };
            (QueryView { seen: seen_put(q.seen, key, SeenView::Pending(refs)), pending: q.pending.push((id, key)), ..q }, false, None)
        },
    }
}

/// The first-phase request to a node.
pub open spec fn query_params(q: QueryView, to: (Seq<char>, u16)) -> ParamsView {
    ParamsView { to, token: None, internal: q.internal, command: q.command, target: Some(q.target), value: q.value }
}

/// Sends to the most recently added pending nodes, while fewer than
/// `limit` requests are in flight, skipping nodes no longer closer.
pub open spec fn drain(q: QueryView, limit: nat, reqs: Seq<RequestView>) -> (QueryView, Seq<RequestView>)
    decreases q.pending.len(),
{
    if q.inflight < limit && q.pending.len() > 0 {
        let next = q.pending.last();
        let q1 = QueryView { pending: q.pending.drop_last(), ..q };
        if !closer_spec(q1, next.0) {
            drain(q1, limit, reqs)
        } else {
            drain(
                QueryView { inflight: q1.inflight + 1, ..q1 },
                limit,
                reqs.push(RequestView::Query(query_params(q1, next.1))),
            )
        }
    } else {
        (q, reqs)
    }
}

/// The query as finished, with its result kept for the caller.
pub open spec fn finish_spec(q: QueryView) -> QueryView {
    if q.finished {
        q
    } else {
        QueryView { finished: true, result: Some((replies_view(q.closest), q.successes, q.errors)), ..q }
    }
}

/// The commit requests: one to each closest reply that has a token.
pub open spec fn commit_requests(q: QueryView, rs: Seq<QueryReply>) -> Seq<RequestView>
    decreases rs.len(),
{
    if rs.len() == 0 {
        Seq::empty()
    } else {
        let r = rs.last();
        commit_requests(q, rs.drop_last()) + match r.token {
            Some(t) => seq![
                RequestView::Commit(
                    ParamsView {
                        to: r.from@,
                        token: Some(t@),
                        internal: q.internal,
                        command: q.command,
                        target: Some(q.target),
                        value: q.value,
                    },
                ),
            ],
            None => Seq::empty(),
        }
    }
}

/// The move to the commit phase: finished at once without commits to send.
pub open spec fn flush_spec(q: QueryView) -> (QueryView, Seq<RequestView>) {
    if q.committing {
        (q, Seq::empty())
    } else {
        let q1 = QueryView { committing: true, ..q };
        if !q1.commit {
            (finish_spec(q1), Seq::empty())
        } else {
            let reqs = commit_requests(q1, q1.closest);
            let q2 = QueryView { commit_inflight: reqs.len(), ..q1 };
            if reqs.len() == 0 {
                (finish_spec(q2), Seq::empty())
            } else {
                (q2, reqs)
            }
        }
    }
}

/// Offers the table's nodes, in order, without a referrer.
pub open spec fn add_nodes_spec(q: QueryView, nodes: Seq<Node>) -> QueryView
    decreases nodes.len(),
{
    if nodes.len() == 0 {
        q
    } else {
        let n = nodes.last();
        add_pending_spec(add_nodes_spec(q, nodes.drop_last()), n.id@, (n.host@, n.port), None).0
    }
}

/// The nodes of the routing table closest to `target`, at most `n`.
pub open spec fn table_closest(t: RoutingTableView, target: Seq<u8>, n: nat) -> Seq<Node> {
    take_k(closest_order(t.buckets, bucket_of(t.id, target)), n)
}

/// Fills the pending list from the routing table, once it is short of `k`.
pub open spec fn add_from_table_spec(q: QueryView, t: RoutingTableView) -> QueryView {
    if q.pending.len() >= q.k {
        q
    } else {
        let q1 = QueryView { from_table: true, ..q };
        add_nodes_spec(q1, table_closest(t, q.target, (q.k - q.pending.len()) as nat))
    }
}

/// The effective concurrency: three at most while slowed down.
pub open spec fn effective_concurrency(q: QueryView) -> nat {
    if q.slowdown && q.concurrency > 3 {
        3
    } else {
        q.concurrency
    }
}

/// Sends what can be sent; once nothing is pending or in flight, falls
/// back to the routing table (once, where few replies succeeded), then
/// moves to the commit phase.
pub open spec fn read_more_spec(q: QueryView, t: RoutingTableView, depth: nat) -> (QueryView, Seq<RequestView>)
    decreases depth,
{
    if q.finished || q.committing {
        (q, Seq::empty())
    } else {
        let (q1, reqs) = drain(q, effective_concurrency(q), Seq::empty());
        let q2 = if !q1.from_table && q1.successes == 0 && q1.errors == 0 {
            QueryView { slowdown: true, ..q1 }
        } else {
            q1
        };
        if q2.pending.len() > 0 || q2.inflight > 0 {
            (q2, reqs)
        } else if !q2.from_table && q2.successes < q2.k / 4 {
            let q3 = add_from_table_spec(q2, t);
            if q3.pending.len() > 0 && depth > 0 {
                let (q4, more) = read_more_spec(q3, t, (depth - 1) as nat);
                (q4, reqs + more)
            } else {
                let (q5, f) = flush_spec(q3);
                (q5, reqs + f)
            }
        } else {
            let (q5, f) = flush_spec(q2);
            (q5, reqs + f)
        }
    }
}

/// Offers the nodes a reply suggested, from `i` on, with the replier as
/// referrer; stops after the first that is not closer. Nodes with the
/// query's own id are skipped.
pub open spec fn offer_spec(q: QueryView, nodes: Seq<(Seq<char>, u16)>, from: (Seq<char>, u16), i: int, extra: Seq<RequestView>) -> (QueryView, Seq<RequestView>)
    decreases nodes.len() - i,
{
    if i < 0 || i >= nodes.len() {
        (q, extra)
    } else {
        let n = nodes[i];
        let id = node_id_of(n.0, n.1);
        if id == q.own_id {
            offer_spec(q, nodes, from, i + 1, extra)
        } else {
            let (q1, stop, hint) = add_pending_spec(q, id, n, Some(from));
            let extra1 = match hint {
                Some(h) => extra.push(h),
                None => extra,
            };
            if stop {
                (q1, extra1)
            } else {
                offer_spec(q1, nodes, from, i + 1, extra1)
            }
        }
    }
}

/// The reply a response becomes among the closest replies.
pub open spec fn reply_of(d: IoResponseData) -> QueryReply {
    QueryReply {
        from: d.from,
        from_id: d.from_id,
        token: d.token,
        closer_nodes: d.closer_nodes,
        error: d.error,
        value: d.value,
        rtt: d.rtt,
    }
}

/// One less in flight, not below zero.
pub open spec fn dec(n: nat) -> nat {
    if n > 0 {
        (n - 1) as nat
    } else {
        0
    }
}

/// A response to a first-phase request: the replier is done; outside the
/// commit phase the reply is counted, kept if it proved its id and is
/// closer, its suggestions are offered, the slowdown ends once there are as
/// many results as the concurrency, and more is read.
pub open spec fn on_response_spec(q: QueryView, d: IoResponseData, t: RoutingTableView) -> (QueryView, Seq<RequestView>) {
    let q1 = QueryView { inflight: dec(q.inflight), seen: seen_put(q.seen, d.from@, SeenView::Done), ..q };
    if q1.committing {
        (q1, Seq::empty())
    } else {
        let (q5, extra) = response_step(q1, d);
        let (q6, more) = read_more_spec(q5, t, 1);
        (q6, extra + more)
    }
}

/// The part of a response outside the commit phase before more is read:
/// the reply is counted, kept if it proved its id and is closer, its
/// suggestions are offered, and the slowdown ends once there are as many
/// results as the concurrency (read as a 32-bit count).
pub open spec fn response_step(q1: QueryView, d: IoResponseData) -> (QueryView, Seq<RequestView>) {
    let q2 = if d.error == 0 {
        QueryView { successes: q1.successes + 1, ..q1 }
    } else {
        QueryView { errors: q1.errors + 1, ..q1 }
    };
    let q3 = if d.error == 0 && d.from_id is Some && closer_spec(q2, d.from_id->0@) {
        QueryView { closest: pushed(q2.target, q2.k, q2.closest, reply_of(d)), ..q2 }
    } else {
        q2
    };
    let (q4, extra) = offer_spec(q3, peers_view(d.closer_nodes@), d.from@, 0, Seq::empty());
    let q5 = if !q4.from_table && q4.successes + q4.errors >= (q4.concurrency as u32) as nat {
        QueryView { slowdown: false, ..q4 }
    } else {
        q4
    };
    (q5, extra)
}

/// The down-hints to each referrer that `down` is down.
pub open spec fn hints_spec(refs: Seq<(Seq<char>, u16)>, down: (Seq<char>, u16)) -> Seq<RequestView>
    decreases refs.len(),
{
    if refs.len() == 0 {
        Seq::empty()
    } else {
        hints_spec(refs.drop_last(), down) + match down_hint_of(refs.last(), down) {
            Some(h) => seq![h],
            None => Seq::empty(),
        }
    }
}

/// A first-phase request timed out: the node is down, those that suggested
/// it are told, the timeout counts as an error, and outside the commit phase
/// more is read.
pub open spec fn on_timeout_spec(q: QueryView, to: (Seq<char>, u16), t: RoutingTableView) -> (QueryView, Seq<RequestView>) {
    let refs = match seen_get(q.seen, to) {
        Some(SeenView::Pending(r)) => r,
        _ => Seq::empty(),
    };
    let q1 = QueryView { seen: seen_put(q.seen, to, SeenView::Down), inflight: dec(q.inflight), errors: q.errors + 1, ..q };
    let hints = hints_spec(refs, to);
    if !q1.committing {
        let (q2, more) = read_more_spec(q1, t, 1);
        (q2, hints + more)
    } else {
        (q1, hints)
    }
}

/// A commit completed: the query finishes when none is left in flight.
pub open spec fn on_commit_done_spec(q: QueryView) -> (QueryView, bool) {
    let q1 = QueryView { commit_inflight: dec(q.commit_inflight), ..q };
    if q1.commit_inflight == 0 {
        (finish_spec(q1), true)
    } else {
        (q1, false)
    }
}

/// Offers explicit nodes, in order, skipping the query's own id.
pub open spec fn add_explicit_spec(q: QueryView, nodes: Seq<(Seq<char>, u16)>) -> QueryView
    decreases nodes.len(),
{
    if nodes.len() == 0 {
        q
    } else {
        let q1 = add_explicit_spec(q, nodes.drop_last());
        let n = nodes.last();
        let id = node_id_of(n.0, n.1);
        if id == q1.own_id {
            q1
        } else {
            add_pending_spec(q1, id, n, None).0
        }
    }
}

// ── The query, executably ───────────────────────────────────────────────────

/// What the query knows of one address.
struct SeenEntry {
    host: String,
    port: u16,
    state: SeenState,
}

/// A seen state as values.
pub open spec fn seen_state_view(s: SeenState) -> SeenView {
    match s {
        SeenState::Pending(v) => SeenView::Pending(peers_view(v@)),
        SeenState::Done => SeenView::Done,
        SeenState::Down => SeenView::Down,
    }
}

spec fn entry_view(e: SeenEntry) -> ((Seq<char>, u16), SeenView) {
    ((e.host@, e.port), seen_state_view(e.state))
}

/// A pending node as values.
pub open spec fn node_view(n: QueryNode) -> (Seq<u8>, (Seq<char>, u16)) {
    (n.id@, (n.host@, n.port))
}

/// Request parameters as values.
pub open spec fn params_view(p: RequestParams) -> ParamsView {
    ParamsView {
        to: p.to@,
        token: match p.token {
            Some(t) => Some(t@),
            None => None,
        },
        internal: p.internal,
        command: p.command,
        target: match p.target {
            Some(t) => Some(t@),
            None => None,
        },
        value: match p.value {
            Some(v) => Some(v@),
            None => None,
        },
    }
}

/// A request as values.
pub open spec fn request_view(r: QueryRequest) -> RequestView {
    match r {
        QueryRequest::Query(p) => RequestView::Query(params_view(p)),
        QueryRequest::Commit(p) => RequestView::Commit(params_view(p)),
        QueryRequest::DownHint(p) => RequestView::DownHint(params_view(p)),
    }
}

/// Requests as values.
pub open spec fn requests_view(v: Seq<QueryRequest>) -> Seq<RequestView> {
    v.map_values(|r: QueryRequest| request_view(r))
}

/// An iterative Kademlia query, driven by the node: it says which requests
/// to send and is told of replies, timeouts and finished commits.
pub struct Query {
    /// The query's id, by which the node routes replies to it.
    pub id: u64,
    /// The target.
    pub target: NodeId,
    internal: bool,
    command: u64,
    value: Option<Vec<u8>>,
    k: usize,
    /// How many requests may be in flight.
    pub concurrency: usize,
    commit: bool,
    inflight: usize,
    slowdown: bool,
    /// The replies that succeeded.
    pub successes: u32,
    /// The error replies and timeouts.
    pub errors: u32,
    from_table: bool,
    committing: bool,
    commit_inflight: usize,
    seen: Vec<SeenEntry>,
    pending: Vec<QueryNode>,
    closest: ClosestReplies,
    finished: bool,
    result: Option<QueryResult>,
    own_id: NodeId,
}

/// A result as values.
pub open spec fn result_view(r: Option<QueryResult>) -> Option<(Seq<ReplyView>, nat, nat)> {
    match r {
        Some(x) => Some((replies_view(x.closest_replies@), x.successes as nat, x.errors as nat)),
        None => None,
    }
}

impl View for Query {
    type V = QueryView;

    closed spec fn view(&self) -> QueryView {
        QueryView {
            id: self.id,
            target: self.target@,
            internal: self.internal,
            command: self.command,
            value: match self.value {
                Some(v) => Some(v@),
                None => None,
            },
            k: self.k as nat,
            concurrency: self.concurrency as nat,
            commit: self.commit,
            inflight: self.inflight as nat,
            slowdown: self.slowdown,
            successes: self.successes as nat,
            errors: self.errors as nat,
            from_table: self.from_table,
            committing: self.committing,
            commit_inflight: self.commit_inflight as nat,
            seen: self.seen@.map_values(|e: SeenEntry| entry_view(e)),
            pending: self.pending@.map_values(|n: QueryNode| node_view(n)),
            closest: self.closest.spec_replies(),
            finished: self.finished,
            result: result_view(self.result),
            own_id: self.own_id@,
        }
    }
}

/// A copy of a peer.
pub(crate) fn clone_peer(p: &Ipv4Peer) -> (r: Ipv4Peer)
    ensures
        r == *p,
{
    Ipv4Peer { host: p.host.clone(), port: p.port }
}

/// Copies of peers, with the same values.
pub(crate) fn clone_peers(v: &Vec<Ipv4Peer>) -> (r: Vec<Ipv4Peer>)
    ensures
        r@ == v@,
{
    let mut r: Vec<Ipv4Peer> = Vec::new();
    let mut i: usize = 0;
    while i < v.len()
        invariant
            i <= v@.len(),
            r@ == v@.subrange(0, i as int),
        decreases v@.len() - i,
    {
        r.push(clone_peer(&v[i]));
        i = i + 1;
        proof {
            assert(r@ =~= v@.subrange(0, i as int));
        }
    }
    proof {
        assert(v@.subrange(0, v@.len() as int) =~= v@);
    }
    r
}

/// A copy of an optional value.
fn clone_value(v: &Option<Vec<u8>>) -> (r: Option<Vec<u8>>)
    ensures
        match (r, *v) {
            (Some(a), Some(b)) => a@ == b@,
            (None, None) => true,
            _ => false,
        },
{
    match v {
        Some(b) => {
            let mut c: Vec<u8> = Vec::new();
            crate::secretstream::push_all(&mut c, b.as_slice());
            Some(c)
        },
        None => None,
    }
}

/// The down-hint to `to` that `down` is down, as [`down_hint_of`] says.
fn make_down_hint(to: &Ipv4Peer, down_host: &String, down_port: u16) -> (r: Option<QueryRequest>)
    ensures
        match down_hint_of(to@, (down_host@, down_port)) {
            Some(h) => r matches Some(x) && request_view(x) == h,
            None => r is None,
        },
{
    let chars = str_chars(down_host.as_str());
    let b = match crate::ipv6_text::parse_ipv4_strict(&chars) {
        Some(b) => b,
        None => {
            return None;
        },
    };
    let mut value: Vec<u8> = Vec::new();
    crate::secretstream::push_all(&mut value, b.as_slice());
    value.push((down_port % 256) as u8);
    value.push((down_port / 256) as u8);
    proof {
        let v = down_port as nat;
        reveal_with_fuel(crate::compact_encoding::pow256, 2);
        assert(crate::compact_encoding::pow256(0) == 1);
        assert(crate::compact_encoding::pow256(1) == 256);
        assert(le_bytes(v, 0) =~= Seq::<u8>::empty());
        assert(v / crate::compact_encoding::pow256(0) == v);
        assert(le_bytes(v, 1) == le_bytes(v, 0).push(((v / crate::compact_encoding::pow256(0)) % 256) as u8));
        assert(le_bytes(v, 1) =~= seq![(v % 256) as u8]);
        assert(le_bytes(v, 2) == le_bytes(v, 1).push(((v / crate::compact_encoding::pow256(1)) % 256) as u8));
        assert((v / 256) % 256 == v / 256);
        assert(le_bytes(v, 2) =~= seq![(v % 256) as u8, ((v / 256) % 256) as u8]);
        assert(le_bytes(v, 2) =~= seq![(down_port % 256) as u8, (down_port / 256) as u8]);
        assert(value@ =~= b@ + le_bytes(down_port as nat, 2));
    }
    Some(
        QueryRequest::DownHint(
            RequestParams {
                to: clone_peer(to),
                token: None,
                internal: true,
                command: DOWN_HINT_CMD,
                target: None,
                value: Some(value),
            },
        ),
    )
}

/// A copy of a reply, with the same values.
fn clone_reply(r: &QueryReply) -> (c: QueryReply)
    ensures
        reply_view(c) == reply_view(*r),
{
    QueryReply {
        from: clone_peer(&r.from),
        from_id: r.from_id,
        token: r.token,
        closer_nodes: clone_peers(&r.closer_nodes),
        error: r.error,
        value: clone_value(&r.value),
        rtt: r.rtt.clone(),
    }
}

/// An optional request as values.
pub open spec fn opt_request_view(r: Option<QueryRequest>) -> Option<RequestView> {
    match r {
        Some(x) => Some(request_view(x)),
        None => None,
    }
}

/// An optional peer as values.
pub open spec fn opt_peer(p: Option<Ipv4Peer>) -> Option<(Seq<char>, u16)> {
    match p {
        Some(x) => Some(x@),
        None => None,
    }
}

impl Query {
    /// The query's invariant: the closest replies are sorted and at most
    /// `k`, for the query's target, and `k` is the bucket size.
    pub closed spec fn wf(&self) -> bool {
        &&& self.closest.wf()
        &&& self.closest.spec_k() == self.k as nat
        &&& self.k == crate::routing_table::K
        &&& self.closest.spec_target() == self.target@
    }

    /// A query for `target` that has asked nobody yet.
    pub fn new(
        id: u64,
        target: NodeId,
        internal: bool,
        command: u64,
        value: Option<Vec<u8>>,
        concurrency: usize,
        commit: bool,
        own_id: NodeId,
    ) -> (q: Self)
        ensures
            q.wf(),
            q@ == (QueryView {
                id,
                target: target@,
                internal,
                command,
                value: opt_vec(value),
                k: crate::routing_table::K as nat,
                concurrency: concurrency as nat,
                commit,
                inflight: 0,
                slowdown: false,
                successes: 0,
                errors: 0,
                from_table: false,
                committing: false,
                commit_inflight: 0,
                seen: Seq::empty(),
                pending: Seq::empty(),
                closest: Seq::empty(),
                finished: false,
                result: None,
                own_id: own_id@,
            }),
    {
        let q = Query {
            id,
            target,
            internal,
            command,
            value,
            k: crate::routing_table::K,
            concurrency,
            commit,
            inflight: 0,
            slowdown: false,
            successes: 0,
            errors: 0,
            from_table: false,
            committing: false,
            commit_inflight: 0,
            seen: Vec::new(),
            pending: Vec::new(),
            closest: ClosestReplies::new(target, crate::routing_table::K),
            finished: false,
            result: None,
            own_id,
        };
        proof {
            assert(q@.seen =~= Seq::empty());
            assert(q@.pending =~= Seq::empty());
            assert(q@.closest =~= Seq::empty());
        }
        q
    }

    /// The closest replies so far, closest first.
    pub fn closest_replies(&self) -> (r: &Vec<QueryReply>)
        ensures
            r@ == self@.closest,
    {
        self.closest.replies()
    }

    /// Where `host:port` is among the addresses seen.
    fn seen_find(&self, host: &String, port: u16) -> (r: Option<usize>)
        ensures
            match seen_index(self@.seen, (host@, port), 0) {
                Some(i) => r matches Some(j) && j == i && 0 <= i < self@.seen.len(),
                None => r is None,
            },
    {
        let ghost vs = self@.seen;
        let ghost key = (host@, port);
        let mut i: usize = 0;
        while i < self.seen.len()
            invariant
                i <= self.seen@.len(),
                vs == self@.seen,
                key == (host@, port),
                vs.len() == self.seen@.len(),
                seen_index(vs, key, i as int) == seen_index(vs, key, 0),
            decreases self.seen@.len() - i,
        {
            let same_port = self.seen[i].port == port;
            let same_host = crate::text::same_str(self.seen[i].host.as_str(), host.as_str());
            proof {
                assert(vs[i as int] == entry_view(self.seen@[i as int]));
                assert(vs[i as int].0 == (self.seen@[i as int].host@, self.seen@[i as int].port));
                assert(same_host == (self.seen@[i as int].host@ == host@));
            }
            if same_port && same_host {
                proof {
                    assert(vs[i as int].0 == key);
                    assert(seen_index(vs, key, i as int) == Some(i as int));
                }
                return Some(i);
            }
            proof {
                assert(vs[i as int].0 != key);
                assert(seen_index(vs, key, i as int) == seen_index(vs, key, i + 1));
            }
            i = i + 1;
        }
        None
    }

    /// Offers a node to the pending list, as [`add_pending_spec`] says.
    fn add_pending_returning(&mut self, node: QueryNode, referrer: Option<Ipv4Peer>) -> (r: (bool, Option<QueryRequest>))
        requires
            old(self).wf(),
        ensures
            final(self).wf(),
            ({
                let (q, stop, hint) = add_pending_spec(old(self)@, node.id@, (node.host@, node.port), opt_peer(referrer));
                final(self)@ == q && r.0 == stop && opt_request_view(r.1) == hint
            }),
    {
        let ghost q0 = self@;
        let ghost key = (node.host@, node.port);
        let closer = self.closest.is_closer(&node.id);
        proof {
            assert(closer == closer_spec(q0, node.id@));
        }
        match self.seen_find(&node.host, node.port) {
            Some(i) => {
                proof {
                    assert(q0.seen[i as int] == entry_view(self.seen@[i as int]));
                    assert(seen_get(q0.seen, key) == Some(seen_state_view(self.seen@[i as int].state)));
                }
                match &self.seen[i].state {
                    SeenState::Done => (!closer, None),
                    SeenState::Down => {
                        let hint = match &referrer {
                            Some(r) => make_down_hint(r, &node.host, node.port),
                            None => None,
                        };
                        (!closer, hint)
                    },
                    SeenState::Pending(refs) => {
                        match referrer {
                            Some(r) => {
                                let mut nr = clone_peers(refs);
                                let ghost rv = r@;
                                nr.push(r);
                                let ghost old_refs = refs@;
                                let entry = SeenEntry { host: node.host, port: node.port, state: SeenState::Pending(nr) };
                                self.seen.set(i, entry);
                                proof {
                                    assert(peers_view(nr@) =~= peers_view(old_refs).push(rv));
                                    assert(self@.seen =~= q0.seen.update(i as int, (key, SeenView::Pending(peers_view(old_refs).push(rv)))));
                                }
                            },
                            None => {},
                        }
                        (!closer, None)
                    },
                }
            },
            None => {
                if !closer {
                    return (true, None);
                }
                let refs: Vec<Ipv4Peer> = match referrer {
                    Some(r) => vec![r],
                    None => Vec::new(),
                };
                proof {
                    assert(peers_view(refs@) =~= match opt_peer(referrer) {
                        Some(r) => seq![r],
                        None => Seq::<(Seq<char>, u16)>::empty(),
                    });
                }
                self.seen.push(SeenEntry { host: node.host.clone(), port: node.port, state: SeenState::Pending(refs) });
                self.pending.push(node);
                proof {
                    assert(self@.seen =~= q0.seen.push((key, seen_state_view(SeenState::Pending(refs)))));
                    assert(self@.pending =~= q0.pending.push((node.id@, key)));
                }
                (false, None)
            },
        }
    }

    /// Marks the query finished, keeping its result for the caller.
    fn finish_internal(&mut self)
        requires
            old(self).wf(),
        ensures
            final(self).wf(),
            final(self)@ == finish_spec(old(self)@),
    {
        if self.finished {
            return;
        }
        self.finished = true;
        let replies = self.closest.replies();
        let mut out: Vec<QueryReply> = Vec::new();
        let mut i: usize = 0;
        while i < replies.len()
            invariant
                i <= replies@.len(),
                out@.len() == i,
                forall|j: int| 0 <= j < i ==> reply_view(#[trigger] out@[j]) == reply_view(replies@[j]),
            decreases replies@.len() - i,
        {
            out.push(clone_reply(&replies[i]));
            i = i + 1;
        }
        proof {
            assert(replies_view(out@) =~= replies_view(replies@));
        }
        self.result = Some(QueryResult { closest_replies: out, successes: self.successes, errors: self.errors });
    }

    /// The move to the commit phase, as [`flush_spec`] says.
    fn flush(&mut self) -> (r: Vec<QueryRequest>)
        requires
            old(self).wf(),
        ensures
            final(self).wf(),
            (final(self)@, requests_view(r@)) == flush_spec(old(self)@),
    {
        if self.committing {
            return Vec::new();
        }
        self.committing = true;
        if !self.commit {
            self.finish_internal();
            return Vec::new();
        }
        let ghost q1 = self@;
        let mut reqs: Vec<QueryRequest> = Vec::new();
        let replies = self.closest.replies();
        let mut i: usize = 0;
        while i < replies.len()
            invariant
                i <= replies@.len(),
                replies@ == q1.closest,
                q1.internal == self.internal && q1.command == self.command && q1.target == self.target@ && q1.value == opt_vec(self.value),
                requests_view(reqs@) == commit_requests(q1, replies@.subrange(0, i as int)),
            decreases replies@.len() - i,
        {
            let ghost before = reqs@;
            match replies[i].token {
                Some(t) => {
                    reqs.push(
                        QueryRequest::Commit(
                            RequestParams {
                                to: clone_peer(&replies[i].from),
                                token: Some(t),
                                internal: self.internal,
                                command: self.command,
                                target: Some(self.target),
                                value: clone_value(&self.value),
                            },
                        ),
                    );
                },
                None => {},
            }
            proof {
                let sub = replies@.subrange(0, i + 1);
                assert(sub.drop_last() =~= replies@.subrange(0, i as int));
                assert(sub.last() == replies@[i as int]);
                assert(requests_view(reqs@) =~= commit_requests(q1, sub));
            }
            i = i + 1;
        }
        proof {
            assert(replies@.subrange(0, replies@.len() as int) =~= replies@);
        }
        self.commit_inflight = reqs.len();
        if self.commit_inflight == 0 {
            self.finish_internal();
            return Vec::new();
        }
        reqs
    }

    /// Fills the pending list from the routing table, as
    /// [`add_from_table_spec`] says.
    pub fn add_from_table(&mut self, table: &RoutingTable)
        requires
            old(self).wf(),
            table.wf(),
        ensures
            final(self).wf(),
            final(self)@ == add_from_table_spec(old(self)@, table@),
    {
        if self.pending.len() >= self.k {
            return;
        }
        self.from_table = true;
        let ghost q1 = self@;
        let need = self.k - self.pending.len();
        let nodes = table.closest(&self.target, need);
        let ghost ns = derefs(nodes@);
        let mut i: usize = 0;
        while i < nodes.len()
            invariant
                i <= nodes@.len(),
                ns == derefs(nodes@),
                ns.len() == nodes@.len(),
                self.wf(),
                self@ == add_nodes_spec(q1, ns.subrange(0, i as int)),
            decreases nodes@.len() - i,
        {
            let n = nodes[i];
            let node = QueryNode { id: n.id, host: n.host.clone(), port: n.port };
            let _ = self.add_pending_returning(node, None);
            proof {
                let sub = ns.subrange(0, i + 1);
                assert(sub.drop_last() =~= ns.subrange(0, i as int));
                assert(sub.last() == *n);
            }
            i = i + 1;
        }
        proof {
            assert(ns.subrange(0, ns.len() as int) =~= ns);
        }
    }

    /// Sends what can be sent, as [`read_more_spec`] says.
    fn read_more(&mut self, table: &RoutingTable, depth: usize) -> (r: Vec<QueryRequest>)
        requires
            old(self).wf(),
            table.wf(),
        ensures
            final(self).wf(),
            (final(self)@, requests_view(r@)) == read_more_spec(old(self)@, table@, depth as nat),
        decreases depth,
    {
        if self.finished || self.committing {
            return Vec::new();
        }
        let ghost q0 = self@;
        let limit = if self.slowdown && self.concurrency > 3 { 3 } else { self.concurrency };
        let mut requests: Vec<QueryRequest> = Vec::new();
        proof {
            assert(requests_view(requests@) =~= Seq::<RequestView>::empty());
        }
        while self.inflight < limit && self.pending.len() > 0
            invariant
                self.wf(),
                limit == effective_concurrency(q0),
                drain(self@, limit as nat, requests_view(requests@)) == drain(q0, limit as nat, Seq::empty()),
            decreases self.pending@.len(),
        {
            let ghost qa = self@;
            let next = self.pending.pop().unwrap();
            proof {
                assert(qa.pending.last() == node_view(next));
                assert(self@.pending =~= qa.pending.drop_last());
                assert(self@ == QueryView { pending: qa.pending.drop_last(), ..qa });
            }
            if self.closest.is_closer(&next.id) {
                self.inflight = self.inflight + 1;
                let ghost before = requests@;
                requests.push(
                    QueryRequest::Query(
                        RequestParams {
                            to: Ipv4Peer { host: next.host, port: next.port },
                            token: None,
                            internal: self.internal,
                            command: self.command,
                            target: Some(self.target),
                            value: clone_value(&self.value),
                        },
                    ),
                );
                proof {
                    assert(requests_view(requests@) =~= requests_view(before).push(
                        RequestView::Query(query_params(QueryView { pending: qa.pending.drop_last(), ..qa }, qa.pending.last().1)),
                    ));
                }
            }
        }
        if !self.from_table && self.successes == 0 && self.errors == 0 {
            self.slowdown = true;
        }
        if self.pending.len() > 0 || self.inflight > 0 {
            return requests;
        }
        if !self.from_table && (self.successes as usize) < self.k / 4 {
            self.add_from_table(table);
            if self.pending.len() > 0 && depth > 0 {
                let mut more = self.read_more(table, depth - 1);
                let ghost a = requests@;
                let ghost b = more@;
                requests.append(&mut more);
                proof {
                    assert(requests_view(requests@) =~= requests_view(a) + requests_view(b));
                }
                return requests;
            }
        }
        let mut f = self.flush();
        let ghost a = requests@;
        let ghost b = f@;
        requests.append(&mut f);
        proof {
            assert(requests_view(requests@) =~= requests_view(a) + requests_view(b));
        }
        requests
    }

    /// Sets what is known of `host:port`.
    fn seen_put(&mut self, host: String, port: u16, st: SeenState)
        requires
            old(self).wf(),
        ensures
            final(self).wf(),
            final(self)@ == (QueryView { seen: seen_put(old(self)@.seen, (host@, port), seen_state_view(st)), ..old(self)@ }),
    {
        let ghost q0 = self@;
        let ghost key = (host@, port);
        match self.seen_find(&host, port) {
            Some(i) => {
                self.seen.set(i, SeenEntry { host, port, state: st });
                proof {
                    assert(self@.seen =~= q0.seen.update(i as int, (key, seen_state_view(st))));
                }
            },
            None => {
                self.seen.push(SeenEntry { host, port, state: st });
                proof {
                    assert(self@.seen =~= q0.seen.push((key, seen_state_view(st))));
                }
            },
        }
    }

    /// The first requests to send, once nodes were added.
    pub fn poll_requests(&mut self, table: &RoutingTable) -> (r: Vec<QueryRequest>)
        requires
            old(self).wf(),
            table.wf(),
        ensures
            final(self).wf(),
            (final(self)@, requests_view(r@)) == read_more_spec(old(self)@, table@, 1),
    {
        self.read_more(table, 1)
    }

    /// Adds explicit nodes (bootstrap or chosen by the user) to the pending
    /// list, as [`add_explicit_spec`] says. Hosts must be dotted-quad IPv4 text.
    pub fn add_nodes(&mut self, nodes: &[(String, u16)])
        requires
            old(self).wf(),
            forall|i: int| 0 <= i < nodes@.len() ==> valid_host((#[trigger] nodes@[i]).0@),
        ensures
            final(self).wf(),
            final(self)@ == add_explicit_spec(old(self)@, nodes@.map_values(|n: (String, u16)| (n.0@, n.1))),
    {
        let ghost q0 = self@;
        let ghost nv = nodes@.map_values(|n: (String, u16)| (n.0@, n.1));
        let mut i: usize = 0;
        while i < nodes.len()
            invariant
                i <= nodes@.len(),
                nv == nodes@.map_values(|n: (String, u16)| (n.0@, n.1)),
                forall|j: int| 0 <= j < nodes@.len() ==> valid_host((#[trigger] nodes@[j]).0@),
                self.wf(),
                self@ == add_explicit_spec(q0, nv.subrange(0, i as int)),
            decreases nodes@.len() - i,
        {
            let (host, port) = &nodes[i];
            let id = crate::peer::peer_id(host.as_str(), *port);
            proof {
                let sub = nv.subrange(0, i + 1);
                assert(sub.drop_last() =~= nv.subrange(0, i as int));
                assert(sub.last() == (host@, *port));
            }
            if !crate::blind_relay::same_token(&id, &self.own_id) {
                let _ = self.add_pending_returning(QueryNode { id, host: host.clone(), port: *port }, None);
            }
            i = i + 1;
        }
        proof {
            assert(nv.subrange(0, nv.len() as int) =~= nv);
        }
    }

    /// Offers the nodes a reply suggested, as [`offer_spec`] says: the
    /// down-hints to send.
    fn offer_nodes(&mut self, nodes: &Vec<Ipv4Peer>, from: &Ipv4Peer) -> (r: Vec<QueryRequest>)
        requires
            old(self).wf(),
            forall|i: int| 0 <= i < nodes@.len() ==> valid_host((#[trigger] nodes@[i]).host@),
        ensures
            final(self).wf(),
            (final(self)@, requests_view(r@)) == offer_spec(old(self)@, peers_view(nodes@), from@, 0, Seq::empty()),
    {
        let ghost q3 = self@;
        let ghost nv = peers_view(nodes@);
        let mut extra: Vec<QueryRequest> = Vec::new();
        proof {
            assert(requests_view(extra@) =~= Seq::<RequestView>::empty());
        }
        let mut stopped = false;
        let mut i: usize = 0;
        while i < nodes.len() && !stopped
            invariant
                i <= nodes@.len(),
                nv == peers_view(nodes@),
                forall|j: int| 0 <= j < nodes@.len() ==> valid_host((#[trigger] nodes@[j]).host@),
                self.wf(),
                (if stopped {
                    (self@, requests_view(extra@))
                } else {
                    offer_spec(self@, nv, from@, i as int, requests_view(extra@))
                }) == offer_spec(q3, nv, from@, 0, Seq::empty()),
            decreases nodes@.len() - i + (if stopped { 0int } else { 1int }),
        {
            let id = crate::peer::peer_id(nodes[i].host.as_str(), nodes[i].port);
            proof {
                assert(nv[i as int] == (nodes@[i as int].host@, nodes@[i as int].port));
            }
            if crate::blind_relay::same_token(&id, &self.own_id) {
                i = i + 1;
            } else {
                let qn = QueryNode { id, host: nodes[i].host.clone(), port: nodes[i].port };
                let ghost ex = requests_view(extra@);
                let (stop, hint) = self.add_pending_returning(qn, Some(clone_peer(from)));
                match hint {
                    Some(h) => {
                        extra.push(h);
                        proof {
                            assert(requests_view(extra@) =~= ex.push(request_view(h)));
                        }
                    },
                    None => {},
                }
                if stop {
                    stopped = true;
                } else {
                    i = i + 1;
                }
            }
        }
        extra
    }

    /// The part of a response outside the commit phase before more is
    /// read, as [`response_step`] says.
    #[verifier::rlimit(40)]
    fn record_response(&mut self, data: IoResponseData) -> (r: Vec<QueryRequest>)
        requires
            old(self).wf(),
            old(self)@.successes + old(self)@.errors < u32::MAX,
            forall|i: int| 0 <= i < data.closer_nodes@.len() ==> valid_host((#[trigger] data.closer_nodes@[i]).host@),
        ensures
            final(self).wf(),
            (final(self)@, requests_view(r@)) == response_step(old(self)@, data),
    {
        let ghost d = data;
        if data.error == 0 {
            self.successes = self.successes + 1;
        } else {
            self.errors = self.errors + 1;
        }
        let from = clone_peer(&data.from);
        let nodes = clone_peers(&data.closer_nodes);
        if data.error == 0 {
            match data.from_id {
                Some(id) => {
                    if self.closest.is_closer(&id) {
                        let reply = QueryReply {
                            from: clone_peer(&data.from),
                            from_id: data.from_id,
                            token: data.token,
                            closer_nodes: data.closer_nodes,
                            error: data.error,
                            value: data.value,
                            rtt: data.rtt,
                        };
                        proof {
                            assert(reply == reply_of(d));
                        }
                        self.closest.push_closest(reply);
                    }
                },
                None => {},
            }
        }
        let extra = self.offer_nodes(&nodes, &from);
        let total: u64 = self.successes as u64 + self.errors as u64;
        if !self.from_table && total >= (self.concurrency as u32) as u64 {
            self.slowdown = false;
        }
        extra
    }

    /// A response to a first-phase request, as [`on_response_spec`] says:
    /// the requests to send next. The suggested hosts must be dotted-quad
    /// IPv4 text.
    pub fn on_response(&mut self, data: IoResponseData, table: &RoutingTable) -> (r: Vec<QueryRequest>)
        requires
            old(self).wf(),
            table.wf(),
            old(self)@.successes + old(self)@.errors < u32::MAX,
            forall|i: int| 0 <= i < data.closer_nodes@.len() ==> valid_host((#[trigger] data.closer_nodes@[i]).host@),
        ensures
            final(self).wf(),
            (final(self)@, requests_view(r@)) == on_response_spec(old(self)@, data, table@),
    {
        if self.inflight > 0 {
            self.inflight = self.inflight - 1;
        }
        self.seen_put(data.from.host.clone(), data.from.port, SeenState::Done);
        if self.committing {
            return Vec::new();
        }
        let mut extra = self.record_response(data);
        let mut more = self.read_more(table, 1);
        let ghost a = extra@;
        let ghost b = more@;
        extra.append(&mut more);
        proof {
            assert(requests_view(extra@) =~= requests_view(a) + requests_view(b));
        }
        extra
    }

    /// A first-phase request timed out, as [`on_timeout_spec`] says: the
    /// requests to send next.
    pub fn on_timeout(&mut self, to: &Ipv4Peer, table: &RoutingTable) -> (r: Vec<QueryRequest>)
        requires
            old(self).wf(),
            table.wf(),
            old(self)@.errors < u32::MAX,
        ensures
            final(self).wf(),
            (final(self)@, requests_view(r@)) == on_timeout_spec(old(self)@, to@, table@),
    {
        let ghost q0 = self@;
        let refs: Vec<Ipv4Peer> = match self.seen_find(&to.host, to.port) {
            Some(i) => {
                proof {
                    assert(q0.seen[i as int] == entry_view(self.seen@[i as int]));
                }
                match &self.seen[i].state {
                    SeenState::Pending(r) => clone_peers(r),
                    _ => Vec::new(),
                }
            },
            None => Vec::new(),
        };
        let ghost rv = peers_view(refs@);
        proof {
            assert(rv =~= match seen_get(q0.seen, to@) {
                Some(SeenView::Pending(r)) => r,
                _ => Seq::<(Seq<char>, u16)>::empty(),
            });
        }
        self.seen_put(to.host.clone(), to.port, SeenState::Down);
        let mut requests: Vec<QueryRequest> = Vec::new();
        let mut i: usize = 0;
        while i < refs.len()
            invariant
                i <= refs@.len(),
                rv == peers_view(refs@),
                requests_view(requests@) == hints_spec(rv.subrange(0, i as int), to@),
            decreases refs@.len() - i,
        {
            let ghost before = requests_view(requests@);
            match make_down_hint(&refs[i], &to.host, to.port) {
                Some(h) => {
                    requests.push(h);
                },
                None => {},
            }
            proof {
                let sub = rv.subrange(0, i + 1);
                assert(sub.drop_last() =~= rv.subrange(0, i as int));
                assert(sub.last() == refs@[i as int]@);
                assert(requests_view(requests@) =~= hints_spec(sub, to@));
            }
            i = i + 1;
        }
        proof {
            assert(rv.subrange(0, rv.len() as int) =~= rv);
        }
        if self.inflight > 0 {
            self.inflight = self.inflight - 1;
        }
        self.errors = self.errors + 1;
        if !self.committing {
            let mut more = self.read_more(table, 1);
            let ghost a = requests@;
            let ghost b = more@;
            requests.append(&mut more);
            proof {
                assert(requests_view(requests@) =~= requests_view(a) + requests_view(b));
            }
        }
        requests
    }

    /// A commit completed, as [`on_commit_done_spec`] says: whether the
    /// query has now finished.
    pub fn on_commit_done(&mut self) -> (done: bool)
        requires
            old(self).wf(),
        ensures
            final(self).wf(),
            (final(self)@, done) == on_commit_done_spec(old(self)@),
    {
        if self.commit_inflight > 0 {
            self.commit_inflight = self.commit_inflight - 1;
        }
        if self.commit_inflight == 0 {
            self.finish_internal();
            return true;
        }
        false
    }

    /// The number of nodes waiting to be asked.
    pub fn pending_len(&self) -> (n: usize)
        ensures
            n == self@.pending.len(),
    {
        self.pending.len()
    }

    /// Whether the routing table was used to fill the pending list.
    pub fn from_table(&self) -> (b: bool)
        ensures
            b == self@.from_table,
    {
        self.from_table
    }

    /// The most closest replies kept.
    pub fn k(&self) -> (n: usize)
        ensures
            n == self@.k,
    {
        self.k
    }

    /// Whether the query has finished; its result is then ready.
    pub fn is_finished(&self) -> (b: bool)
        ensures
            b == self@.finished,
    {
        self.finished
    }

    /// The result of a finished query, handed over once.
    pub fn take_result(&mut self) -> (r: Option<QueryResult>)
        requires
            old(self).wf(),
        ensures
            final(self).wf(),
            result_view(r) == old(self)@.result,
            final(self)@ == (QueryView { result: None, ..old(self)@ }),
    {
        self.result.take()
    }
}

/// A query that keeps its invariant keeps its closest replies sorted by
/// distance to the target, closest first, and no more than `k` of them.
pub proof fn lemma_query_closest_sorted(q: &Query)
    requires
        q.wf(),
    ensures
        sorted_closest(q@.target, q@.closest),
        q@.closest.len() <= q@.k,
{
}

/// Finishing is done once: finishing again changes nothing, and the result
/// is the closest replies and the counts at the first finish.
pub proof fn lemma_finish_once(q: QueryView)
    ensures
        finish_spec(finish_spec(q)) == finish_spec(q),
        !q.finished ==> finish_spec(q).result == Some((replies_view(q.closest), q.successes, q.errors)),
{
}

/// A finished or committing query sends no more first-phase requests and
/// does not change when asked to read more.
pub proof fn lemma_read_more_after_end(q: QueryView, t: RoutingTableView, depth: nat)
    requires
        q.finished || q.committing,
    ensures
        read_more_spec(q, t, depth) == (q, Seq::<RequestView>::empty()),
{
}

/// The replies that carry a token, in order.
pub open spec fn tokened(rs: Seq<QueryReply>) -> Seq<QueryReply> {
    rs.filter(|r: QueryReply| r.token is Some)
}

/// The commit a query sends to a reply: to its address, with its token and
/// the query's command, target and value.
pub open spec fn commit_to(q: QueryView, r: QueryReply) -> RequestView {
    RequestView::Commit(
        ParamsView {
            to: r.from@,
            token: Some(r.token->0@),
            internal: q.internal,
            command: q.command,
            target: Some(q.target),
            value: q.value,
        },
    )
}

/// The commit requests are exactly one per reply that carries a token, in
/// the order of the replies, each to that reply's address with its token.
pub proof fn lemma_commit_requests(q: QueryView, rs: Seq<QueryReply>)
    ensures
        commit_requests(q, rs).len() == tokened(rs).len(),
        forall|k: int| 0 <= k < tokened(rs).len() ==> #[trigger] commit_requests(q, rs)[k] == commit_to(q, tokened(rs)[k]),
        forall|k: int| 0 <= k < tokened(rs).len() ==> (#[trigger] tokened(rs)[k]).token is Some,
        forall|i: int| 0 <= i < rs.len() && (#[trigger] rs[i]).token is Some ==> tokened(rs).contains(rs[i]),
    decreases rs.len(),
{
    reveal(Seq::filter);
    broadcast use vstd::seq_lib::group_filter_ensures;
    if rs.len() > 0 {
        lemma_commit_requests(q, rs.drop_last());
        let t0 = tokened(rs.drop_last());
        assert(rs.drop_last().filter(|r: QueryReply| r.token is Some) == t0);
        let c0 = commit_requests(q, rs.drop_last());
        let r = rs.last();
        if r.token is Some {
            assert(tokened(rs) == t0.push(r));
            assert forall|k: int| 0 <= k < tokened(rs).len() implies #[trigger] commit_requests(q, rs)[k] == commit_to(q, tokened(rs)[k]) by {
                if k < t0.len() {
                    assert(commit_requests(q, rs)[k] == c0[k]);
                }
            }
        } else {
            assert(tokened(rs) == t0);
            assert(commit_requests(q, rs) =~= c0);
        }
        assert forall|i: int| 0 <= i < rs.len() && (#[trigger] rs[i]).token is Some implies tokened(rs).contains(rs[i]) by {
            if i < rs.len() - 1 {
                assert(rs.drop_last()[i] == rs[i]);
                let w = choose|w: int| 0 <= w < t0.len() && t0[w] == rs[i];
                assert(tokened(rs)[w] == rs[i]);
            } else {
                assert(tokened(rs)[tokened(rs).len() - 1] == rs[i]);
            }
        }
    } else {
        assert(tokened(rs) =~= Seq::<QueryReply>::empty());
    }
}

/// Entering the commit phase of a committing query sends one commit to
/// each closest reply that carries a token, in order, and waits for all of
/// them; without such replies it finishes at once.
pub proof fn lemma_flush_commits(q: QueryView)
    requires
        !q.committing,
        q.commit,
    ensures
        flush_spec(q).1.len() == tokened(q.closest).len(),
        forall|k: int| 0 <= k < tokened(q.closest).len() ==> #[trigger] flush_spec(q).1[k] == commit_to(q, tokened(q.closest)[k]),
        tokened(q.closest).len() > 0 ==> flush_spec(q).0.commit_inflight == tokened(q.closest).len(),
        tokened(q.closest).len() == 0 ==> flush_spec(q).0.finished,
{
    let q1 = QueryView { committing: true, ..q };
    lemma_commit_requests(q1, q1.closest);
    assert forall|k: int| 0 <= k < tokened(q.closest).len() implies #[trigger] flush_spec(q).1[k] == commit_to(q, tokened(q.closest)[k]) by {
        assert(commit_to(q1, tokened(q.closest)[k]) == commit_to(q, tokened(q.closest)[k]));
    }
}

} // verus!
