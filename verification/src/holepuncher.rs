//! Address choice for hole punching: which of the remote peer's LAN
//! addresses shares the longest dotted prefix with one of ours, and which
//! remote addresses count as verified.
use vstd::prelude::*;
use crate::messages::{peers_view, Ipv4Peer};
use crate::text::{same_range, same_str, split_dot_bounds, split_dots, str_chars};

verus! {

/// A remote address to punch, and whether it was seen from a trusted source.
#[derive(Debug, Clone)]
pub struct RemoteAddress {
    pub host: String,
    pub port: u16,
    pub verified: bool,
}

impl View for RemoteAddress {
    type V = (Seq<char>, u16, bool);

    open spec fn view(&self) -> (Seq<char>, u16, bool) {
        (self.host@, self.port, self.verified)
    }
}

/// The dot-separated fields of a host.
pub open spec fn host_fields(h: Seq<char>) -> Seq<Seq<char>> {
    split_dots(h)
}

/// The result of the search from local address `i`, remote address `j`, with
/// the best prefix length so far `seg` (1: none, 2: first field, 3: first
/// two fields) and the remote address that reached it. Locals and remotes
/// without four fields are passed over; a remote that shares the first three
/// fields with a local ends the search.
pub open spec fn match_from(
    ls: Seq<(Seq<char>, u16)>,
    rs: Seq<(Seq<char>, u16)>,
    i: int,
    j: int,
    seg: u8,
    best: Option<(Seq<char>, u16)>,
) -> Option<(Seq<char>, u16)>
    decreases ls.len() - i, rs.len() - j,
{
    if i < 0 || j < 0 || i >= ls.len() {
        best
    } else if j >= rs.len() {
        match_from(ls, rs, i + 1, 0, seg, best)
    } else {
        let a = host_fields(ls[i].0);
        let b = host_fields(rs[j].0);
        if a.len() != 4 {
            match_from(ls, rs, i + 1, 0, seg, best)
        } else if b.len() != 4 {
            match_from(ls, rs, i, j + 1, seg, best)
        } else if a[0] == b[0] {
            let seg1: u8 = if seg == 1 { 2 } else { seg };
            let best1 = if seg == 1 { Some(rs[j]) } else { best };
            if a[1] == b[1] {
                let seg2: u8 = if seg1 == 2 { 3 } else { seg1 };
                let best2 = if seg1 == 2 { Some(rs[j]) } else { best1 };
                if a[2] == b[2] {
                    Some(rs[j])
                } else {
                    match_from(ls, rs, i, j + 1, seg2, best2)
                }
            } else {
                match_from(ls, rs, i, j + 1, seg1, best1)
            }
        } else {
            match_from(ls, rs, i, j + 1, seg, best)
        }
    }
}

/// The remote LAN address to try: the first remote sharing three fields with
/// a local address, else the first to share two, else the first to share one;
/// none when there are no remote addresses or none shares a field.
pub open spec fn match_address_spec(ls: Seq<(Seq<char>, u16)>, rs: Seq<(Seq<char>, u16)>) -> Option<(Seq<char>, u16)> {
    if rs.len() == 0 {
        None
    } else {
        match_from(ls, rs, 0, 0, 1, None)
    }
}

/// A copy of a peer address.
fn copy_peer(p: &Ipv4Peer) -> (q: Ipv4Peer)
    ensures
        q@ == p@,
{
    Ipv4Peer { host: p.host.clone(), port: p.port }
}

/// Picks the remote LAN address that shares the longest dotted prefix with
/// one of the local addresses (see [`match_address_spec`]).
pub fn match_address(local_addresses: &[Ipv4Peer], remote_local_addresses: &[Ipv4Peer]) -> (r: Option<Ipv4Peer>)
    ensures
        match r {
            Some(p) => match_address_spec(peers_view(local_addresses@), peers_view(remote_local_addresses@)) == Some(p@),
            None => match_address_spec(peers_view(local_addresses@), peers_view(remote_local_addresses@)) is None,
        },
{
    let ghost ls = peers_view(local_addresses@);
    let ghost rs = peers_view(remote_local_addresses@);
    if remote_local_addresses.len() == 0 {
        return None;
    }
    let mut best_segment: u8 = 1;
    let mut best_addr: Option<usize> = None;
    let ghost target = match_from(ls, rs, 0, 0, 1, None);
    let mut i: usize = 0;
    while i < local_addresses.len()
        invariant
            ls == peers_view(local_addresses@),
            rs == peers_view(remote_local_addresses@),
            rs.len() > 0,
            i <= local_addresses@.len(),
            target == match_from(ls, rs, 0, 0, 1, None),
            best_addr matches Some(x) ==> x < remote_local_addresses@.len(),
            target == match_from(ls, rs, i as int, 0, best_segment, match best_addr {
                Some(x) => Some(rs[x as int]),
                None => None,
            }),
        decreases local_addresses@.len() - i,
    {
        let lv = str_chars(local_addresses[i].host.as_str());
        let a = split_dot_bounds(&lv);
        if a.len() != 4 {
            i = i + 1;
            continue;
        }
        let mut j: usize = 0;
        while j < remote_local_addresses.len()
            invariant
                ls == peers_view(local_addresses@),
                rs == peers_view(remote_local_addresses@),
                rs.len() > 0,
                target == match_from(ls, rs, 0, 0, 1, None),
                i < local_addresses@.len(),
                j <= remote_local_addresses@.len(),
                lv@ == ls[i as int].0,
                a@.len() == 4,
                forall|m: int|
                    0 <= m < 4 ==> {
                        &&& (#[trigger] a@[m]).0 <= a@[m].1 <= lv@.len()
                        &&& lv@.subrange(a@[m].0 as int, a@[m].1 as int) == host_fields(ls[i as int].0)[m]
                    },
                host_fields(ls[i as int].0).len() == 4,
                best_addr matches Some(x) ==> x < remote_local_addresses@.len(),
                target == match_from(ls, rs, i as int, j as int, best_segment, match best_addr {
                    Some(x) => Some(rs[x as int]),
                    None => None,
                }),
            decreases remote_local_addresses@.len() - j,
        {
            let rv = str_chars(remote_local_addresses[j].host.as_str());
            let b = split_dot_bounds(&rv);
            proof {
                assert(rs[j as int] == remote_local_addresses@[j as int]@);
                assert(rv@ == rs[j as int].0);
            }
            if b.len() != 4 {
                j = j + 1;
                continue;
            }
            if same_range(&lv, a[0].0, a[0].1, &rv, b[0].0, b[0].1) {
                if best_segment == 1 {
                    best_segment = 2;
                    best_addr = Some(j);
                }
                if same_range(&lv, a[1].0, a[1].1, &rv, b[1].0, b[1].1) {
                    if best_segment == 2 {
                        best_segment = 3;
                        best_addr = Some(j);
                    }
                    if same_range(&lv, a[2].0, a[2].1, &rv, b[2].0, b[2].1) {
                        proof {
                            let fa = host_fields(ls[i as int].0);
                            let fb = host_fields(rs[j as int].0);
                            assert(fa[0] == fb[0] && fa[1] == fb[1] && fa[2] == fb[2]);
                            assert(target == Some(rs[j as int]));
                        }
                        return Some(copy_peer(&remote_local_addresses[j]));
                    }
                }
            }
            j = j + 1;
        }
        i = i + 1;
    }
    match best_addr {
        Some(x) => Some(copy_peer(&remote_local_addresses[x])),
        None => None,
    }
}

/// The remote addresses after an update: each new address, verified when
/// its host is the verified host or was verified before.
pub open spec fn updated_remote(
    addresses: Seq<(Seq<char>, u16)>,
    verified_host: Option<Seq<char>>,
    previous: Seq<(Seq<char>, u16, bool)>,
) -> Seq<(Seq<char>, u16, bool)> {
    addresses.map_values(
        |p: (Seq<char>, u16)|
            (
                p.0,
                p.1,
                verified_host == Some(p.0) || exists|k: int|
                    0 <= k < previous.len() && (#[trigger] previous[k]).2 && previous[k].0 == p.0,
            ),
    )
}

/// The plain values of a list of remote addresses.
pub open spec fn remotes_view(rs: Seq<RemoteAddress>) -> Seq<(Seq<char>, u16, bool)> {
    rs.map_values(|r: RemoteAddress| r@)
}

/// Whether `host` is among the verified hosts of `previous`.
fn verified_before(previous: &[RemoteAddress], host: &String) -> (b: bool)
    ensures
        b == exists|k: int|
            0 <= k < previous@.len() && (#[trigger] remotes_view(previous@)[k]).2 && remotes_view(previous@)[k].0
                == host@,
{
    let ghost pv = remotes_view(previous@);
    let mut k: usize = 0;
    while k < previous.len()
        invariant
            k <= previous@.len(),
            pv == remotes_view(previous@),
            forall|m: int| 0 <= m < k ==> !((#[trigger] pv[m]).2 && pv[m].0 == host@),
        decreases previous@.len() - k,
    {
        if previous[k].verified && previous[k].host == *host {
            assert(pv[k as int].2 && pv[k as int].0 == host@);
            return true;
        }
        k = k + 1;
    }
    false
}

/// The remote addresses that an update of the remote peer's addresses gives
/// (see [`updated_remote`]).
pub fn remote_addresses(addresses: &[Ipv4Peer], verified_host: Option<&str>, previous: &[RemoteAddress]) -> (r: Vec<
    RemoteAddress,
>)
    ensures
        remotes_view(r@) == updated_remote(
            peers_view(addresses@),
            match verified_host {
                Some(h) => Some(h@),
                None => None,
            },
            remotes_view(previous@),
        ),
{
    let ghost vh = match verified_host {
        Some(h) => Some(h@),
        None => None::<Seq<char>>,
    };
    let ghost want = updated_remote(peers_view(addresses@), vh, remotes_view(previous@));
    let mut out: Vec<RemoteAddress> = Vec::new();
    let mut i: usize = 0;
    while i < addresses.len()
        invariant
            i <= addresses@.len(),
            want == updated_remote(peers_view(addresses@), vh, remotes_view(previous@)),
            vh == (match verified_host {
                Some(h) => Some(h@),
                None => None::<Seq<char>>,
            }),
            remotes_view(out@) == want.take(i as int),
        decreases addresses@.len() - i,
    {
        let host = &addresses[i].host;
        let by_host = match verified_host {
            Some(h) => same_str(h, host.as_str()),
            None => false,
        };
        let verified = by_host || verified_before(previous, host);
        let ghost before = out@;
        let ghost p = peers_view(addresses@)[i as int];
        proof {
            assert(p == addresses@[i as int]@);
            assert(by_host == (vh == Some(p.0)));
            assert(want[i as int] == (p.0, p.1, verified));
        }
        out.push(RemoteAddress { host: host.clone(), port: addresses[i].port, verified });
        proof {
            assert(remotes_view(out@) =~= remotes_view(before).push(want[i as int]));
            assert(want.take(i + 1) =~= want.take(i as int).push(want[i as int]));
        }
        i = i + 1;
    }
    proof {
        assert(want.take(i as int) =~= want);
    }
    out
}

// ── What the address choice guarantees ──────────────────────────────────────

/// Hosts `l` and `r` both have four dotted fields and agree on the first `k`.
pub open spec fn share_fields(l: Seq<char>, r: Seq<char>, k: int) -> bool {
    &&& host_fields(l).len() == 4
    &&& host_fields(r).len() == 4
    &&& forall|m: int| 0 <= m < k ==> #[trigger] host_fields(l)[m] == host_fields(r)[m]
}

/// Some local address and some remote address share `k` fields.
pub open spec fn some_pair_shares(ls: Seq<(Seq<char>, u16)>, rs: Seq<(Seq<char>, u16)>, k: int) -> bool {
    exists|a: int, b: int| 0 <= a < ls.len() && 0 <= b < rs.len() && #[trigger] share_fields(ls[a].0, rs[b].0, k)
}

/// `x` is one of the remote addresses and shares `k` fields with some local one.
pub open spec fn backed(ls: Seq<(Seq<char>, u16)>, rs: Seq<(Seq<char>, u16)>, x: (Seq<char>, u16), k: int) -> bool {
    &&& rs.contains(x)
    &&& exists|a: int| 0 <= a < ls.len() && #[trigger] share_fields(ls[a].0, x.0, k)
}

/// `o` is a remote address that shares `k` fields with some local one.
pub open spec fn backed_opt(ls: Seq<(Seq<char>, u16)>, rs: Seq<(Seq<char>, u16)>, o: Option<(Seq<char>, u16)>, k: int) -> bool {
    o matches Some(x) && backed(ls, rs, x, k)
}

/// A pair at local `a`, remote `b` comes at or after the search position `(i, j)`.
pub open spec fn pair_from(ls: Seq<(Seq<char>, u16)>, rs: Seq<(Seq<char>, u16)>, i: int, j: int, k: int) -> bool {
    exists|a: int, b: int|
        0 <= a < ls.len() && 0 <= b < rs.len() && (a > i || (a == i && b >= j)) && #[trigger] share_fields(
            ls[a].0,
            rs[b].0,
            k,
        )
}

proof fn lemma_pair_from_step_j(ls: Seq<(Seq<char>, u16)>, rs: Seq<(Seq<char>, u16)>, i: int, j: int, k: int)
    requires
        0 <= i < ls.len(),
        0 <= j < rs.len(),
    ensures
        pair_from(ls, rs, i, j, k) == (share_fields(ls[i].0, rs[j].0, k) || pair_from(ls, rs, i, j + 1, k)),
{
    if pair_from(ls, rs, i, j, k) && !share_fields(ls[i].0, rs[j].0, k) {
        let (a, b) = choose|a: int, b: int|
            0 <= a < ls.len() && 0 <= b < rs.len() && (a > i || (a == i && b >= j)) && #[trigger] share_fields(
                ls[a].0,
                rs[b].0,
                k,
            );
        assert(a > i || b >= j + 1);
    }
    if share_fields(ls[i].0, rs[j].0, k) {
        assert(share_fields(ls[i].0, rs[j].0, k));
    }
}

proof fn lemma_pair_from_step_i(ls: Seq<(Seq<char>, u16)>, rs: Seq<(Seq<char>, u16)>, i: int, j: int, k: int)
    requires
        0 <= i < ls.len(),
        0 <= j,
        j >= rs.len() || host_fields(ls[i].0).len() != 4,
    ensures
        pair_from(ls, rs, i, j, k) == pair_from(ls, rs, i + 1, 0, k),
{
    if pair_from(ls, rs, i, j, k) {
        let (a, b) = choose|a: int, b: int|
            0 <= a < ls.len() && 0 <= b < rs.len() && (a > i || (a == i && b >= j)) && #[trigger] share_fields(
                ls[a].0,
                rs[b].0,
                k,
            );
        assert(a > i);
    }
    if pair_from(ls, rs, i + 1, 0, k) {
        let (a, b) = choose|a: int, b: int|
            0 <= a < ls.len() && 0 <= b < rs.len() && (a > i + 1 || (a == i + 1 && b >= 0)) && #[trigger] share_fields(
                ls[a].0,
                rs[b].0,
                k,
            );
        assert(a > i);
    }
}

proof fn lemma_pair_from_skip_remote(ls: Seq<(Seq<char>, u16)>, rs: Seq<(Seq<char>, u16)>, i: int, j: int, k: int)
    requires
        0 <= i < ls.len(),
        0 <= j < rs.len(),
        host_fields(rs[j].0).len() != 4,
    ensures
        pair_from(ls, rs, i, j, k) == pair_from(ls, rs, i, j + 1, k),
{
    lemma_pair_from_step_j(ls, rs, i, j, k);
}

/// What the search from `(i, j)` gives, given what the best so far is:
/// a remote sharing three fields ahead means such a remote is given; a
/// result is always a remote that shares at least the first field (two,
/// when two-field sharing was seen or is ahead) with a local address; and
/// nothing is given exactly when nothing was found and no pair ahead shares
/// the first field.
proof fn lemma_match_from(
    ls: Seq<(Seq<char>, u16)>,
    rs: Seq<(Seq<char>, u16)>,
    i: int,
    j: int,
    seg: u8,
    best: Option<(Seq<char>, u16)>,
)
    requires
        0 <= i,
        0 <= j,
        1 <= seg <= 3,
        (seg == 1) == (best is None),
        best is Some ==> backed_opt(ls, rs, best, seg - 1),
    ensures
        pair_from(ls, rs, i, j, 3) ==> backed_opt(ls, rs, match_from(ls, rs, i, j, seg, best), 3),
        (seg >= 3 || pair_from(ls, rs, i, j, 2)) ==> backed_opt(ls, rs, match_from(ls, rs, i, j, seg, best), 2),
        match_from(ls, rs, i, j, seg, best) is Some ==> backed_opt(ls, rs, match_from(ls, rs, i, j, seg, best), 1),
        match_from(ls, rs, i, j, seg, best) is None <==> (best is None && !pair_from(ls, rs, i, j, 1)),
    decreases ls.len() - i, rs.len() - j,
{
    match best {
        Some(x) => {
            let a = choose|a: int| 0 <= a < ls.len() && #[trigger] share_fields(ls[a].0, x.0, seg - 1);
            assert(share_fields(ls[a].0, x.0, 1));
        },
        None => {},
    }
    if i >= ls.len() {
        return;
    }
    if j >= rs.len() {
        lemma_pair_from_step_i(ls, rs, i, j, 1);
        lemma_pair_from_step_i(ls, rs, i, j, 2);
        lemma_pair_from_step_i(ls, rs, i, j, 3);
        lemma_match_from(ls, rs, i + 1, 0, seg, best);
        return;
    }
    let fa = host_fields(ls[i].0);
    let fb = host_fields(rs[j].0);
    if fa.len() != 4 {
        lemma_pair_from_step_i(ls, rs, i, j, 1);
        lemma_pair_from_step_i(ls, rs, i, j, 2);
        lemma_pair_from_step_i(ls, rs, i, j, 3);
        lemma_match_from(ls, rs, i + 1, 0, seg, best);
        return;
    }
    lemma_pair_from_step_j(ls, rs, i, j, 1);
    lemma_pair_from_step_j(ls, rs, i, j, 2);
    lemma_pair_from_step_j(ls, rs, i, j, 3);
    assert(rs.contains(rs[j]));
    if fb.len() != 4 {
        lemma_match_from(ls, rs, i, j + 1, seg, best);
        return;
    }
    if fa[0] == fb[0] {
        assert(share_fields(ls[i].0, rs[j].0, 1));
        let seg1: u8 = if seg == 1 { 2 } else { seg };
        let best1 = if seg == 1 { Some(rs[j]) } else { best };
        if fa[1] == fb[1] {
            assert(share_fields(ls[i].0, rs[j].0, 2));
            let seg2: u8 = if seg1 == 2 { 3 } else { seg1 };
            let best2 = if seg1 == 2 { Some(rs[j]) } else { best1 };
            if fa[2] == fb[2] {
                assert(share_fields(ls[i].0, rs[j].0, 3));
            } else {
                assert(!share_fields(ls[i].0, rs[j].0, 3));
                lemma_match_from(ls, rs, i, j + 1, seg2, best2);
            }
        } else {
            assert(!share_fields(ls[i].0, rs[j].0, 2));
            assert(!share_fields(ls[i].0, rs[j].0, 3));
            lemma_match_from(ls, rs, i, j + 1, seg1, best1);
        }
    } else {
        assert(!share_fields(ls[i].0, rs[j].0, 1));
        assert(!share_fields(ls[i].0, rs[j].0, 2));
        assert(!share_fields(ls[i].0, rs[j].0, 3));
        lemma_match_from(ls, rs, i, j + 1, seg, best);
    }
}

/// The remote LAN address chosen for hole punching, over every local and
/// remote address:
/// - when some local and some remote address share their first three
///   dotted fields, a remote sharing three fields with some local is chosen;
/// - else, when some pair shares the first two fields, a remote sharing two;
/// - whatever is chosen is one of the remote addresses and shares at least
///   the first field with one of the local addresses;
/// - nothing is chosen exactly when no pair shares the first field.
pub proof fn lemma_match_address(ls: Seq<(Seq<char>, u16)>, rs: Seq<(Seq<char>, u16)>)
    ensures
        some_pair_shares(ls, rs, 3) ==> backed_opt(ls, rs, match_address_spec(ls, rs), 3),
        some_pair_shares(ls, rs, 2) ==> backed_opt(ls, rs, match_address_spec(ls, rs), 2),
        match_address_spec(ls, rs) is Some ==> backed_opt(ls, rs, match_address_spec(ls, rs), 1),
        match_address_spec(ls, rs) is None <==> !some_pair_shares(ls, rs, 1),
{
    if rs.len() > 0 {
        lemma_match_from(ls, rs, 0, 0, 1, None);
    }
    assert forall|k: int| pair_from(ls, rs, 0, 0, k) == some_pair_shares(ls, rs, k) by {
        if some_pair_shares(ls, rs, k) {
            let (a, b) = choose|a: int, b: int| 0 <= a < ls.len() && 0 <= b < rs.len() && #[trigger] share_fields(ls[a].0, rs[b].0, k);
            assert(a > 0 || (a == 0 && b >= 0));
        }
    }
}

} // verus!
