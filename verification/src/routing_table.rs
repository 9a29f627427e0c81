//! The Kademlia routing table: 256 buckets of at most `k` nodes each, a node
//! going to the bucket of the first bit in which its id differs from the
//! local id; each bucket is kept sorted by id.
use vstd::prelude::*;
use crate::peer::NodeId;
use vstd::pervasive::VecAdditionalExecFns;

verus! {

/// K parameter: the most nodes a bucket holds.
pub const K: usize = 20;

/// The number of buckets for 32-byte ids.
pub const NUM_BUCKETS: usize = 256;

/// A peer in the routing table.
#[derive(Debug, Clone)]
pub struct Node {
    pub id: NodeId,
    pub host: String,
    pub port: u16,
    pub token: Option<Vec<u8>>,
    pub added_tick: u64,
    pub seen_tick: u64,
    pub pinged_tick: u64,
    pub down_hints: u32,
}

/// Events emitted by the routing table.
#[derive(Debug)]
pub enum TableEvent {
    /// A bucket was full and refused a node: ping its oldest node to decide
    /// whether to evict it.
    BucketFull { new_node: Node, bucket_index: usize },
}

// ── Ids ─────────────────────────────────────────────────────────────────────

/// The first position from `i` on where `a` and `b` differ, or the length of `a`.
pub open spec fn first_diff_from(a: Seq<u8>, b: Seq<u8>, i: int) -> int
    decreases a.len() - i,
{
    if i >= a.len() || i < 0 {
        a.len() as int
    } else if a[i] != b[i] {
        i
    } else {
        first_diff_from(a, b, i + 1)
    }
}

/// The first position where `a` and `b` differ, or the length of `a`.
pub open spec fn first_diff(a: Seq<u8>, b: Seq<u8>) -> int {
    first_diff_from(a, b, 0)
}

/// `a` comes before `b` byte by byte.
pub open spec fn id_lt(a: Seq<u8>, b: Seq<u8>) -> bool {
    let i = first_diff(a, b);
    0 <= i < a.len() && i < b.len() && a[i] < b[i]
}

/// The bucket of `id` in a table with local id `local`: eight per byte of
/// the first differing byte, plus the leading zeros of the difference; the
/// last bucket for the local id itself.
pub open spec fn bucket_of(local: Seq<u8>, id: Seq<u8>) -> int {
    let i = first_diff(id, local);
    if 0 <= i < 32 {
        i * 8 + (id[i] ^ local[i]).leading_zeros()
    } else {
        255
    }
}

proof fn lemma_first_diff_from(a: Seq<u8>, b: Seq<u8>, i: int)
    requires
        0 <= i <= a.len(),
        a.len() == b.len(),
    ensures
        i <= first_diff_from(a, b, i) <= a.len(),
        forall|j: int| i <= j < first_diff_from(a, b, i) ==> a[j] == b[j],
        first_diff_from(a, b, i) < a.len() ==> a[first_diff_from(a, b, i)] != b[first_diff_from(a, b, i)],
    decreases a.len() - i,
{
    if i < a.len() && a[i] == b[i] {
        lemma_first_diff_from(a, b, i + 1);
    }
}

/// The first difference is where the bytes first differ.
pub proof fn lemma_first_diff(a: Seq<u8>, b: Seq<u8>)
    requires
        a.len() == b.len(),
    ensures
        0 <= first_diff(a, b) <= a.len(),
        forall|j: int| 0 <= j < first_diff(a, b) ==> a[j] == b[j],
        first_diff(a, b) < a.len() ==> a[first_diff(a, b)] != b[first_diff(a, b)],
        first_diff(a, b) == a.len() ==> a == b,
        first_diff(a, b) == first_diff(b, a),
{
    lemma_first_diff_from(a, b, 0);
    lemma_first_diff_from(b, a, 0);
    if first_diff(a, b) == a.len() {
        assert(a =~= b);
    }
    let i = first_diff(a, b);
    let j = first_diff(b, a);
    if i < j {
        assert(b[i] == a[i]);
    }
    if j < i {
        assert(a[j] == b[j]);
    }
}

/// Ids are ordered strictly and totally.
pub proof fn lemma_id_order(a: Seq<u8>, b: Seq<u8>, c: Seq<u8>)
    requires
        a.len() == b.len(),
        b.len() == c.len(),
    ensures
        !id_lt(a, a),
        id_lt(a, b) ==> !id_lt(b, a),
        a != b ==> id_lt(a, b) || id_lt(b, a),
        id_lt(a, b) && id_lt(b, c) ==> id_lt(a, c),
{
    lemma_first_diff(a, a);
    lemma_first_diff(a, b);
    lemma_first_diff(b, c);
    lemma_first_diff(a, c);
    lemma_first_diff(b, a);
    if id_lt(a, b) && id_lt(b, c) {
        let i = first_diff(a, b);
        let j = first_diff(b, c);
        let m = if i < j { i } else { j };
        assert forall|x: int| 0 <= x < m implies a[x] == c[x] by {
            assert(a[x] == b[x] && b[x] == c[x]);
        }
        if first_diff(a, c) < m {
            let x = first_diff(a, c);
            assert(a[x] == b[x] && b[x] == c[x]);
        }
        if first_diff(a, c) > m {
            if i < j {
                assert(c[i] == b[i]);
            } else if j < i {
                assert(a[j] == b[j]);
            } else {
                assert(a[m] < c[m]);
            }
        }
    }
}

/// Compares two ids byte by byte: negative, zero or positive.
pub fn compare_ids(a: &NodeId, b: &NodeId) -> (c: i8)
    ensures
        c == 0 <==> a@ == b@,
        c < 0 <==> id_lt(a@, b@),
        c > 0 <==> id_lt(b@, a@),
{
    let mut i: usize = 0;
    while i < 32
        invariant
            i <= 32,
            forall|j: int| 0 <= j < i ==> a@[j] == b@[j],
        decreases 32 - i,
    {
        if a[i] != b[i] {
            proof {
                lemma_first_diff(a@, b@);
                let d = first_diff(a@, b@);
                if d < i {
                    assert(a@[d] == b@[d]);
                }
                if d > i {
                    assert(a@[i as int] == b@[i as int]);
                }
                lemma_id_order(a@, b@, b@);
            }
            if a[i] < b[i] {
                return -1;
            } else {
                return 1;
            }
        }
        i = i + 1;
    }
    proof {
        assert(a@ =~= b@);
        lemma_id_order(a@, a@, a@);
    }
    0
}

// ── Buckets ─────────────────────────────────────────────────────────────────

/// The ids of a list of nodes.
pub open spec fn node_ids(ns: Seq<Node>) -> Seq<Seq<u8>> {
    ns.map_values(|n: Node| n.id@)
}

/// The nodes of a bucket are in strictly increasing id order.
pub open spec fn sorted_by_id(ns: Seq<Node>) -> bool {
    forall|i: int, j: int| 0 <= i < j < ns.len() ==> id_lt(#[trigger] ns[i].id@, #[trigger] ns[j].id@)
}

/// The position where `id` is or would go in a sorted bucket: every node
/// before it has a smaller id, the node at it (if any) does not.
pub open spec fn is_lower_bound(ns: Seq<Node>, id: Seq<u8>, j: int) -> bool {
    &&& 0 <= j <= ns.len()
    &&& forall|x: int| 0 <= x < j ==> id_lt(#[trigger] ns[x].id@, id)
    &&& j < ns.len() ==> !id_lt(ns[j].id@, id)
}

/// The position where `id` is or would go in a sorted bucket.
pub open spec fn lower_bound(ns: Seq<Node>, id: Seq<u8>) -> int {
    choose|j: int| is_lower_bound(ns, id, j)
}

/// Whether a sorted bucket holds a node with `id`, at its lower bound.
pub open spec fn found_at(ns: Seq<Node>, id: Seq<u8>) -> bool {
    lower_bound(ns, id) < ns.len() && ns[lower_bound(ns, id)].id@ == id
}

proof fn lemma_lower_bound_unique(ns: Seq<Node>, id: Seq<u8>, j: int)
    requires
        is_lower_bound(ns, id, j),
        sorted_by_id(ns),
    ensures
        lower_bound(ns, id) == j,
{
    let k = lower_bound(ns, id);
    assert(is_lower_bound(ns, id, k));
    if k < j {
        assert(id_lt(ns[k].id@, id));
    }
    if j < k {
        assert(id_lt(ns[j].id@, id));
    }
}

/// In a sorted bucket of 32-byte ids, a node with `id` is at the lower bound
/// of `id` if anywhere.
pub proof fn lemma_found_at(ns: Seq<Node>, id: Seq<u8>, x: int)
    requires
        sorted_by_id(ns),
        id.len() == 32,
        forall|y: int| 0 <= y < ns.len() ==> (#[trigger] ns[y]).id@.len() == 32,
        0 <= x < ns.len(),
        ns[x].id@ == id,
        exists|j: int| is_lower_bound(ns, id, j),
    ensures
        found_at(ns, id),
        lower_bound(ns, id) == x,
{
    let j = lower_bound(ns, id);
    assert(is_lower_bound(ns, id, j));
    lemma_id_order(id, id, id);
    if x < j {
        assert(id_lt(ns[x].id@, id));
    }
    if j < x {
        assert(id_lt(ns[j].id@, ns[x].id@));
    }
}

/// A sorted bucket with a node inserted at the lower bound of its id stays sorted.
proof fn lemma_insert_sorted(ns: Seq<Node>, n: Node, j: int)
    requires
        sorted_by_id(ns),
        is_lower_bound(ns, n.id@, j),
        j < ns.len() ==> ns[j].id@ != n.id@,
        n.id@.len() == 32,
        forall|y: int| 0 <= y < ns.len() ==> (#[trigger] ns[y]).id@.len() == 32,
    ensures
        sorted_by_id(ns.insert(j, n)),
{
    let m = ns.insert(j, n);
    assert forall|a: int, b: int| 0 <= a < b < m.len() implies id_lt(#[trigger] m[a].id@, #[trigger] m[b].id@) by {
        if b < j {
            assert(m[a] == ns[a] && m[b] == ns[b]);
        } else if b == j {
            assert(m[a] == ns[a]);
        } else if a < j {
            assert(m[a] == ns[a] && m[b] == ns[b - 1]);
            assert(id_lt(ns[a].id@, n.id@));
            lemma_id_order(n.id@, ns[j].id@, ns[j].id@);
            if b - 1 > j {
                assert(id_lt(ns[j].id@, ns[b - 1].id@));
                lemma_id_order(n.id@, ns[j].id@, ns[b - 1].id@);
            }
            lemma_id_order(ns[a].id@, n.id@, ns[b - 1].id@);
        } else if a == j {
            assert(m[b] == ns[b - 1]);
            lemma_id_order(n.id@, ns[j].id@, ns[j].id@);
            if b - 1 > j {
                assert(id_lt(ns[j].id@, ns[b - 1].id@));
                lemma_id_order(n.id@, ns[j].id@, ns[b - 1].id@);
            }
        } else {
            assert(m[a] == ns[a - 1] && m[b] == ns[b - 1]);
        }
    }
}

proof fn lemma_remove_sorted(ns: Seq<Node>, j: int)
    requires
        sorted_by_id(ns),
        0 <= j < ns.len(),
    ensures
        sorted_by_id(ns.remove(j)),
{
    let m = ns.remove(j);
    assert forall|a: int, b: int| 0 <= a < b < m.len() implies id_lt(#[trigger] m[a].id@, #[trigger] m[b].id@) by {
        let a2 = if a < j { a } else { a + 1 };
        let b2 = if b < j { b } else { b + 1 };
        assert(m[a] == ns[a2] && m[b] == ns[b2]);
    }
}

/// Finds the lower bound of `id` in a sorted bucket.
fn find_position(ns: &Vec<Node>, id: &NodeId) -> (j: usize)
    requires
        sorted_by_id(ns@),
        forall|y: int| 0 <= y < ns@.len() ==> (#[trigger] ns@[y]).id@.len() == 32,
    ensures
        is_lower_bound(ns@, id@, j as int),
        lower_bound(ns@, id@) == j,
{
    let mut j: usize = 0;
    while j < ns.len()
        invariant
            j <= ns@.len(),
            sorted_by_id(ns@),
            forall|x: int| 0 <= x < j ==> id_lt(#[trigger] ns@[x].id@, id@),
        decreases ns@.len() - j,
    {
        if compare_ids(&ns[j].id, id) >= 0 {
            proof {
                lemma_lower_bound_unique(ns@, id@, j as int);
            }
            return j;
        }
        j = j + 1;
    }
    proof {
        lemma_lower_bound_unique(ns@, id@, j as int);
    }
    j
}

// ── The table ───────────────────────────────────────────────────────────────

/// The Kademlia routing table.
pub struct RoutingTable {
    id: NodeId,
    k: usize,
    buckets: Vec<Vec<Node>>,
    size: usize,
    pending_events: Vec<TableEvent>,
}

/// A routing table as plain values.
pub struct RoutingTableView {
    pub id: Seq<u8>,
    pub k: nat,
    pub buckets: Seq<Seq<Node>>,
    pub size: nat,
    pub events: Seq<TableEvent>,
}

/// The number of nodes in a list of buckets.
pub open spec fn total(bs: Seq<Seq<Node>>) -> nat
    decreases bs.len(),
{
    if bs.len() == 0 {
        0
    } else {
        total(bs.drop_last()) + bs.last().len()
    }
}

proof fn lemma_total_update(bs: Seq<Seq<Node>>, b: int, ns: Seq<Node>)
    requires
        0 <= b < bs.len(),
    ensures
        total(bs.update(b, ns)) + bs[b].len() == total(bs) + ns.len(),
    decreases bs.len(),
{
    if b < bs.len() - 1 {
        lemma_total_update(bs.drop_last(), b, ns);
        assert(bs.update(b, ns).drop_last() =~= bs.drop_last().update(b, ns));
    } else {
        assert(bs.update(b, ns).drop_last() =~= bs.drop_last());
    }
}

proof fn lemma_total_empty(n: nat)
    ensures
        total(Seq::new(n, |i: int| Seq::<Node>::empty())) == 0,
    decreases n,
{
    if n > 0 {
        lemma_total_empty((n - 1) as nat);
        assert(Seq::new(n, |i: int| Seq::<Node>::empty()).drop_last() =~= Seq::new(
            (n - 1) as nat,
            |i: int| Seq::<Node>::empty(),
        ));
    }
}

impl View for RoutingTable {
    type V = RoutingTableView;

    closed spec fn view(&self) -> RoutingTableView {
        RoutingTableView {
            id: self.id@,
            k: self.k as nat,
            buckets: self.buckets@.map_values(|b: Vec<Node>| b@),
            size: self.size as nat,
            events: self.pending_events@,
        }
    }
}

/// Whether the buckets of a table with local id `id` are in order: 256
/// buckets, each sorted, each node in the bucket of its id.
pub open spec fn buckets_wf(id: Seq<u8>, bs: Seq<Seq<Node>>) -> bool {
    &&& bs.len() == 256
    &&& forall|b: int| 0 <= b < 256 ==> sorted_by_id(#[trigger] bs[b])
    &&& forall|b: int, j: int|
        0 <= b < 256 && 0 <= j < bs[b].len() ==> bucket_of(id, (#[trigger] bs[b][j]).id@) == b
}

/// The node with `id` in a table view, if there is one.
pub open spec fn lookup(t: RoutingTableView, id: Seq<u8>) -> Option<Node> {
    let ns = t.buckets[bucket_of(t.id, id)];
    if found_at(ns, id) {
        Some(ns[lower_bound(ns, id)])
    } else {
        None
    }
}

impl RoutingTable {
    /// The table's invariant: ordered buckets and a size that counts them.
    pub closed spec fn wf(&self) -> bool {
        &&& self.id@.len() == 32
        &&& self.buckets@.len() == 256
        &&& buckets_wf(self.id@, self@.buckets)
        &&& self.size == total(self@.buckets)
        &&& forall|b: int| 0 <= b < 256 ==> (#[trigger] self@.buckets[b]).len() <= self.k
    }

    /// Creates a table with the given local id and buckets of [`K`] nodes.
    pub fn new(id: NodeId) -> (t: Self)
        ensures
            t.wf(),
            t@.id == id@,
            t@.k == K,
            t@.buckets == Seq::new(256, |i: int| Seq::<Node>::empty()),
            t@.size == 0,
            t@.events == Seq::<TableEvent>::empty(),
    {
        Self::with_k(id, K)
    }

    /// Creates a table with buckets of `k` nodes.
    pub fn with_k(id: NodeId, k: usize) -> (t: Self)
        ensures
            t.wf(),
            t@.id == id@,
            t@.k == k,
            t@.buckets == Seq::new(256, |i: int| Seq::<Node>::empty()),
            t@.size == 0,
            t@.events == Seq::<TableEvent>::empty(),
    {
        let mut buckets: Vec<Vec<Node>> = Vec::new();
        let mut i: usize = 0;
        while i < NUM_BUCKETS
            invariant
                i <= 256,
                buckets@.len() == i,
                forall|j: int| 0 <= j < i ==> (#[trigger] buckets@[j])@ == Seq::<Node>::empty(),
            decreases 256 - i,
        {
            buckets.push(Vec::new());
            i = i + 1;
        }
        let t = RoutingTable { id, k, buckets, size: 0, pending_events: Vec::new() };
        proof {
            assert(t@.buckets =~= Seq::new(256, |i: int| Seq::<Node>::empty()));
            lemma_total_empty(256);
        }
        t
    }

    /// The local node id.
    pub fn id(&self) -> (r: &NodeId)
        ensures
            r@ == self@.id,
    {
        &self.id
    }

    /// The number of nodes in the table.
    pub fn len(&self) -> (n: usize)
        requires
            self.wf(),
        ensures
            n == self@.size,
            n == total(self@.buckets),
    {
        self.size
    }

    /// Whether the table holds no node.
    pub fn is_empty(&self) -> (b: bool)
        requires
            self.wf(),
        ensures
            b <==> total(self@.buckets) == 0,
    {
        self.size == 0
    }

    /// The bucket index of `id`: eight per byte of the first byte where it
    /// differs from the local id, plus the leading zeros of the difference;
    /// the last bucket for the local id itself.
    pub fn bucket_index(&self, id: &NodeId) -> (b: usize)
        requires
            self.wf(),
        ensures
            b == bucket_of(self@.id, id@),
            b < 256,
    {
        broadcast use vstd::std_specs::bits::axiom_u8_leading_zeros;

        let mut i: usize = 0;
        while i < 32
            invariant
                i <= 32,
                self.id@.len() == 32,
                forall|j: int| 0 <= j < i ==> id@[j] == self.id@[j],
            decreases 32 - i,
        {
            let a = id[i];
            let b = self.id[i];
            if a != b {
                proof {
                    lemma_first_diff(id@, self.id@);
                    let d = first_diff(id@, self.id@);
                    if d < i {
                        assert(id@[d] == self.id@[d]);
                    }
                    if d > i {
                        assert(id@[i as int] == self.id@[i as int]);
                    }
                }
                let z = (a ^ b).leading_zeros();
                proof {
                    assert(a ^ b != 0) by (bit_vector)
                        requires
                            a != b,
                    ;
                }
                return i * 8 + z as usize;
            }
            i = i + 1;
        }
        proof {
            lemma_first_diff(id@, self.id@);
            let d = first_diff(id@, self.id@);
            if d < 32 {
                assert(id@[d] == self.id@[d]);
            }
        }
        NUM_BUCKETS - 1
    }
}


/// A table view with the bucket of `id` changed to `ns`.
pub open spec fn with_bucket(t: RoutingTableView, b: int, ns: Seq<Node>, size: nat) -> RoutingTableView {
    RoutingTableView { buckets: t.buckets.update(b, ns), size, ..t }
}

/// What adding `node` does to a table: a node with its id is replaced; a new
/// id goes in its bucket in id order while the bucket has room; a full bucket
/// refuses it and records an event.
pub open spec fn added(t: RoutingTableView, node: Node) -> (RoutingTableView, bool) {
    let b = bucket_of(t.id, node.id@);
    let ns = t.buckets[b];
    let j = lower_bound(ns, node.id@);
    if found_at(ns, node.id@) {
        (with_bucket(t, b, ns.update(j, node), t.size), true)
    } else if ns.len() < t.k {
        (with_bucket(t, b, ns.insert(j, node), t.size + 1), true)
    } else {
        (
            RoutingTableView {
                events: t.events.push(TableEvent::BucketFull { new_node: node, bucket_index: b as usize }),
                ..t
            },
            false,
        )
    }
}

/// What removing `id` does to a table: the node with that id leaves its bucket.
pub open spec fn removed(t: RoutingTableView, id: Seq<u8>) -> (RoutingTableView, Option<Node>) {
    let b = bucket_of(t.id, id);
    let ns = t.buckets[b];
    let j = lower_bound(ns, id);
    if found_at(ns, id) {
        (with_bucket(t, b, ns.remove(j), (t.size - 1) as nat), Some(ns[j]))
    } else {
        (t, None)
    }
}

/// The first `k` items of `s`, or all of them when there are fewer.
pub open spec fn take_k(s: Seq<Node>, k: nat) -> Seq<Node> {
    if s.len() <= k {
        s
    } else {
        s.take(k as int)
    }
}

/// The nodes of buckets `d` down to `i`, in that order.
pub open spec fn down_seg(bs: Seq<Seq<Node>>, d: int, i: int) -> Seq<Node>
    decreases d + 1 - i,
{
    if i > d || i < 0 {
        Seq::empty()
    } else {
        down_seg(bs, d, i + 1) + bs[i]
    }
}

/// The nodes of buckets `lo` up to `j - 1`, in that order.
pub open spec fn up_seg(bs: Seq<Seq<Node>>, lo: int, j: int) -> Seq<Node>
    decreases j - lo,
{
    if j <= lo {
        Seq::empty()
    } else {
        up_seg(bs, lo, j - 1) + bs[j - 1]
    }
}

/// The nodes in the order a lookup for a target in bucket `d` visits them:
/// buckets `d` down to 0, then `d + 1` up to the last.
pub open spec fn closest_order(bs: Seq<Seq<Node>>, d: int) -> Seq<Node> {
    down_seg(bs, d, 0) + up_seg(bs, d + 1, bs.len() as int)
}

proof fn lemma_map_update(bs: Seq<Vec<Node>>, i: int, v: Vec<Node>)
    requires
        0 <= i < bs.len(),
    ensures
        bs.update(i, v).map_values(|b: Vec<Node>| b@) == bs.map_values(|b: Vec<Node>| b@).update(i, v@),
{
    assert(bs.update(i, v).map_values(|b: Vec<Node>| b@) =~= bs.map_values(|b: Vec<Node>| b@).update(i, v@));
}

/// The nodes behind a list of references.
pub open spec fn derefs(v: Seq<&Node>) -> Seq<Node> {
    v.map_values(|n: &Node| *n)
}

proof fn lemma_take_k_twice(s: Seq<Node>, t: Seq<Node>, k: nat)
    ensures
        take_k(take_k(s, k) + t, k) == take_k(s + t, k),
{
    if s.len() > k {
        assert((s.take(k as int) + t).take(k as int) =~= (s + t).take(k as int));
    }
}

fn append_upto<'a>(result: &mut Vec<&'a Node>, bucket: &'a Vec<Node>, k: usize)
    requires
        old(result)@.len() <= k,
    ensures
        derefs(final(result)@) == take_k(derefs(old(result)@) + bucket@, k as nat),
        final(result)@.len() <= k,
{
    let ghost start = derefs(result@);
    let mut x: usize = 0;
    while x < bucket.len()
        invariant
            x <= bucket@.len(),
            result@.len() <= k,
            derefs(result@) == take_k(start + bucket@.take(x as int), k as nat),
            start.len() <= k,
        decreases bucket@.len() - x,
    {
        let ghost before = result@;
        if result.len() < k {
            result.push(&bucket[x]);
            proof {
                assert(derefs(result@) =~= derefs(before).push(bucket@[x as int]));
                assert(start + bucket@.take(x + 1) =~= (start + bucket@.take(x as int)).push(bucket@[x as int]));
            }
        } else {
            proof {
                assert((start + bucket@.take(x + 1)).take(k as int) =~= (start + bucket@.take(x as int)).take(k as int));
            }
        }
        x = x + 1;
    }
    proof {
        assert(bucket@.take(x as int) =~= bucket@);
    }
}

impl RoutingTable {
    /// Adds a node. A node with the same id is replaced; a new node goes in
    /// its bucket while the bucket has room. A full bucket refuses the node
    /// and records a [`TableEvent::BucketFull`]. Returns whether the node is in.
    pub fn add(&mut self, node: Node) -> (r: bool)
        requires
            old(self).wf(),
            old(self)@.size < usize::MAX,
        ensures
            final(self).wf(),
            (final(self)@, r) == added(old(self)@, node),
    {
        let ghost t0 = self@;
        let ghost nid = node.id@;
        let idx = self.bucket_index(&node.id);
        let mut bucket: Vec<Node> = Vec::new();
        self.buckets.set_and_swap(idx, &mut bucket);
        proof {
            assert(bucket@ == t0.buckets[idx as int]);
            assert forall|y: int| 0 <= y < bucket@.len() implies (#[trigger] bucket@[y]).id@.len() == 32 by {}
        }
        let pos = find_position(&bucket, &node.id);
        let found = pos < bucket.len() && compare_ids(&bucket[pos].id, &node.id) == 0;
        proof {
            if found {
                assert(found_at(bucket@, nid));
            } else {
                assert(!found_at(bucket@, nid));
            }
        }
        if found {
            let ghost ns = bucket@;
            bucket.set(pos, node);
            proof {
                assert(bucket@ == ns.update(pos as int, node));
                assert(sorted_by_id(bucket@)) by {
                    assert forall|a: int, b: int| 0 <= a < b < bucket@.len() implies id_lt(
                        #[trigger] bucket@[a].id@,
                        #[trigger] bucket@[b].id@,
                    ) by {
                        assert(ns[a].id@ == bucket@[a].id@ && ns[b].id@ == bucket@[b].id@);
                    }
                }
            }
            let ghost nb = bucket@;
            self.buckets.set(idx, bucket);
            proof {
                assert(self@.buckets =~= t0.buckets.update(idx as int, nb));
                lemma_total_update(t0.buckets, idx as int, nb);
            }
            true
        } else if bucket.len() < self.k {
            let ghost ns = bucket@;
            bucket.insert(pos, node);
            proof {
                lemma_insert_sorted(ns, node, pos as int);
            }
            let ghost nb = bucket@;
            self.buckets.set(idx, bucket);
            proof {
                assert(self@.buckets =~= t0.buckets.update(idx as int, nb));
                lemma_total_update(t0.buckets, idx as int, nb);
                assert forall|j: int| 0 <= j < ns.len() + 1 implies bucket_of(t0.id, (#[trigger] ns.insert(pos as int, node)[j]).id@) == idx by {
                    if j < pos {
                        assert(ns.insert(pos as int, node)[j] == ns[j]);
                    } else if j > pos {
                        assert(ns.insert(pos as int, node)[j] == ns[j - 1]);
                    }
                }
            }
            self.size = self.size + 1;
            true
        } else {
            let ghost nb = bucket@;
            self.buckets.set(idx, bucket);
            proof {
                assert(self@.buckets =~= t0.buckets);
            }
            self.pending_events.push(TableEvent::BucketFull { new_node: node, bucket_index: idx });
            false
        }
    }
}


impl RoutingTable {
    /// Removes the node with `id`, giving it back if it was there.
    pub fn remove(&mut self, id: &NodeId) -> (r: Option<Node>)
        requires
            old(self).wf(),
        ensures
            final(self).wf(),
            (final(self)@, r) == removed(old(self)@, id@),
    {
        let ghost t0 = self@;
        let idx = self.bucket_index(id);
        let mut bucket: Vec<Node> = Vec::new();
        self.buckets.set_and_swap(idx, &mut bucket);
        proof {
            assert(bucket@ == t0.buckets[idx as int]);
        }
        let pos = find_position(&bucket, id);
        let found = pos < bucket.len() && compare_ids(&bucket[pos].id, id) == 0;
        if found {
            let ghost ns = bucket@;
            let node = bucket.remove(pos);
            proof {
                lemma_remove_sorted(ns, pos as int);
                assert forall|j: int| 0 <= j < ns.len() - 1 implies bucket_of(t0.id, (#[trigger] ns.remove(pos as int)[j]).id@) == idx by {
                    if j < pos {
                        assert(ns.remove(pos as int)[j] == ns[j]);
                    } else {
                        assert(ns.remove(pos as int)[j] == ns[j + 1]);
                    }
                }
            }
            let ghost nb = bucket@;
            self.buckets.set(idx, bucket);
            proof {
                assert(self@.buckets =~= t0.buckets.update(idx as int, nb));
                lemma_total_update(t0.buckets, idx as int, nb);
            }
            self.size = self.size - 1;
            Some(node)
        } else {
            self.buckets.set(idx, bucket);
            proof {
                assert(self@.buckets =~= t0.buckets);
            }
            None
        }
    }

    /// The node with `id`, if the table holds one.
    pub fn get(&self, id: &NodeId) -> (r: Option<&Node>)
        requires
            self.wf(),
        ensures
            match r {
                Some(n) => lookup(self@, id@) == Some(*n),
                None => lookup(self@, id@) is None,
            },
    {
        let idx = self.bucket_index(id);
        let bucket = &self.buckets[idx];
        proof {
            assert(bucket@ == self@.buckets[idx as int]);
        }
        let pos = find_position(bucket, id);
        if pos < bucket.len() && compare_ids(&bucket[pos].id, id) == 0 {
            Some(&bucket[pos])
        } else {
            None
        }
    }

    /// Whether the table holds a node with `id`.
    pub fn has(&self, id: &NodeId) -> (b: bool)
        requires
            self.wf(),
        ensures
            b == lookup(self@, id@) is Some,
    {
        self.get(id).is_some()
    }

    /// The node with `id` for changing in place, if the table holds one. The
    /// table stays in order as long as the node keeps its id.
    pub fn get_mut(&mut self, id: &NodeId) -> (r: Option<&mut Node>)
        requires
            old(self).wf(),
        ensures
            old(self)@.buckets == final(self)@.buckets ==> final(self).wf(),
            match r {
                Some(n) => lookup(old(self)@, id@) == Some(*n) && final(self)@ == with_bucket(
                    old(self)@,
                    bucket_of(old(self)@.id, id@),
                    old(self)@.buckets[bucket_of(old(self)@.id, id@)].update(
                        lower_bound(old(self)@.buckets[bucket_of(old(self)@.id, id@)], id@),
                        *final(n),
                    ),
                    old(self)@.size,
                ),
                None => lookup(old(self)@, id@) is None && *final(self) == *old(self),
            },
    {
        let idx = self.bucket_index(id);
        let pos = find_position(&self.buckets[idx], id);
        if pos < self.buckets[idx].len() && compare_ids(&self.buckets[idx][pos].id, id) == 0 {
            let ghost old_bs = self.buckets@;
            let bucket = &mut self.buckets[idx];
            proof {
                lemma_map_update(old_bs, idx as int, *final(bucket));
            }
            let n = &mut bucket[pos];
            Some(n)
        } else {
            None
        }
    }

    /// Up to `k` nodes, in the order a lookup for `target` visits them: the
    /// bucket of `target`, the buckets below it down to the first, then the
    /// buckets above it.
    pub fn closest(&self, target: &NodeId, k: usize) -> (r: Vec<&Node>)
        requires
            self.wf(),
        ensures
            derefs(r@) == take_k(closest_order(self@.buckets, bucket_of(self@.id, target@)), k as nat),
    {
        let ghost bs = self@.buckets;
        let d = self.bucket_index(target);
        let mut result: Vec<&Node> = Vec::new();
        proof {
            assert(derefs(result@) =~= Seq::<Node>::empty());
            assert(take_k(down_seg(bs, d as int, d + 1), k as nat) =~= Seq::<Node>::empty());
        }
        let mut i: usize = d + 1;
        while i > 0
            invariant
                i <= d + 1,
                d < 256,
                bs == self@.buckets,
                self.buckets@.len() == 256,
                result@.len() <= k,
                derefs(result@) == take_k(down_seg(bs, d as int, i as int), k as nat),
            decreases i,
        {
            let ghost before = derefs(result@);
            append_upto(&mut result, &self.buckets[i - 1], k);
            proof {
                assert(self.buckets@[i - 1]@ == bs[i - 1]);
                lemma_take_k_twice(down_seg(bs, d as int, i as int), bs[i - 1], k as nat);
                assert(down_seg(bs, d as int, i - 1) == down_seg(bs, d as int, i as int) + bs[i - 1]);
            }
            i = i - 1;
        }
        let mut j: usize = d + 1;
        proof {
            assert(up_seg(bs, d + 1, d + 1) =~= Seq::<Node>::empty());
            assert(down_seg(bs, d as int, 0) + up_seg(bs, d + 1, d + 1) =~= down_seg(bs, d as int, 0));
        }
        while j < NUM_BUCKETS
            invariant
                d + 1 <= j <= 256,
                d < 256,
                bs == self@.buckets,
                self.buckets@.len() == 256,
                result@.len() <= k,
                derefs(result@) == take_k(down_seg(bs, d as int, 0) + up_seg(bs, d + 1, j as int), k as nat),
            decreases 256 - j,
        {
            append_upto(&mut result, &self.buckets[j], k);
            proof {
                assert(self.buckets@[j as int]@ == bs[j as int]);
                lemma_take_k_twice(down_seg(bs, d as int, 0) + up_seg(bs, d + 1, j as int), bs[j as int], k as nat);
                assert(up_seg(bs, d + 1, j + 1) == up_seg(bs, d + 1, j as int) + bs[j as int]);
                assert(down_seg(bs, d as int, 0) + up_seg(bs, d + 1, j + 1) =~= down_seg(bs, d as int, 0) + up_seg(
                    bs,
                    d + 1,
                    j as int,
                ) + bs[j as int]);
            }
            j = j + 1;
        }
        result
    }

    /// Takes the pending events, leaving none.
    pub fn drain_events(&mut self) -> (events: Vec<TableEvent>)
        requires
            old(self).wf(),
        ensures
            final(self).wf(),
            events@ == old(self)@.events,
            final(self)@ == (RoutingTableView { events: Seq::empty(), ..old(self)@ }),
    {
        let mut events: Vec<TableEvent> = Vec::new();
        std::mem::swap(&mut events, &mut self.pending_events);
        proof {
            assert(self@.events =~= Seq::<TableEvent>::empty());
        }
        events
    }
}


/// A number drawn uniformly below `n` by the thread-local generator
/// (`rand::rng().random_range(0..n)`, which panics on an empty range). Only
/// the bound holds of every draw.
#[verifier::external_body]
fn random_below(n: usize) -> (r: usize)
    requires
        n > 0,
    ensures
        r < n,
{
    rand::Rng::random_range(&mut rand::rng(), 0..n)
}

impl RoutingTable {
    /// A node of the table drawn at random: a random non-empty bucket, then a
    /// random node in it. `None` exactly when the table is empty.
    pub fn random(&self) -> (r: Option<&Node>)
        requires
            self.wf(),
        ensures
            r is None <==> total(self@.buckets) == 0,
            r matches Some(n) ==> exists|b: int, j: int|
                0 <= b < 256 && 0 <= j < self@.buckets[b].len() && self@.buckets[b][j] == *n,
    {
        let ghost bs = self@.buckets;
        if self.size == 0 {
            return None;
        }
        let mut occupied: Vec<usize> = Vec::new();
        let mut i: usize = 0;
        while i < NUM_BUCKETS
            invariant
                i <= 256,
                bs == self@.buckets,
                self.buckets@.len() == 256,
                forall|x: int| 0 <= x < occupied@.len() ==> (#[trigger] occupied@[x]) < 256 && bs[occupied@[x] as int].len() > 0,
                forall|b: int| 0 <= b < i && bs[b].len() > 0 ==> occupied@.len() > 0,
            decreases 256 - i,
        {
            if self.buckets[i].len() > 0 {
                occupied.push(i);
            }
            i = i + 1;
        }
        if occupied.len() == 0 {
            proof {
                lemma_total_zero(bs);
            }
            return None;
        }
        let b = occupied[random_below(occupied.len())];
        let bucket = &self.buckets[b];
        let j = random_below(bucket.len());
        proof {
            assert(bucket@[j as int] == bs[b as int][j as int]);
        }
        Some(&bucket[j])
    }
}

proof fn lemma_total_zero(bs: Seq<Seq<Node>>)
    requires
        forall|b: int| 0 <= b < bs.len() ==> (#[trigger] bs[b]).len() == 0,
    ensures
        total(bs) == 0,
    decreases bs.len(),
{
    if bs.len() > 0 {
        let q = bs.drop_last();
        assert forall|b: int| 0 <= b < q.len() implies (#[trigger] q[b]).len() == 0 by {
            assert(q[b] == bs[b]);
        }
        lemma_total_zero(q);
        assert(bs.last() == bs[bs.len() - 1]);
    }
}

// ── Laws ────────────────────────────────────────────────────────────────────

/// Every sorted bucket has a lower bound for every 32-byte id.
pub proof fn lemma_lower_bound_exists(ns: Seq<Node>, id: Seq<u8>)
    requires
        sorted_by_id(ns),
        id.len() == 32,
        forall|y: int| 0 <= y < ns.len() ==> (#[trigger] ns[y]).id@.len() == 32,
    ensures
        is_lower_bound(ns, id, lower_bound(ns, id)),
    decreases ns.len(),
{
    if ns.len() == 0 {
        assert(is_lower_bound(ns, id, 0));
    } else {
        let p = ns.drop_last();
        assert(sorted_by_id(p)) by {
            assert forall|a: int, b: int| 0 <= a < b < p.len() implies id_lt(#[trigger] p[a].id@, #[trigger] p[b].id@) by {
                assert(p[a] == ns[a] && p[b] == ns[b]);
            }
        }
        assert forall|y: int| 0 <= y < p.len() implies (#[trigger] p[y]).id@.len() == 32 by {
            assert(p[y] == ns[y]);
        }
        lemma_lower_bound_exists(p, id);
        let j0 = lower_bound(p, id);
        if j0 < p.len() {
            assert(p[j0] == ns[j0]);
            assert forall|x: int| 0 <= x < j0 implies id_lt(#[trigger] ns[x].id@, id) by {
                assert(p[x] == ns[x]);
            }
            assert(is_lower_bound(ns, id, j0));
        } else {
            assert forall|x: int| 0 <= x < p.len() implies id_lt(#[trigger] ns[x].id@, id) by {
                assert(p[x] == ns[x]);
            }
            if id_lt(ns.last().id@, id) {
                assert(is_lower_bound(ns, id, ns.len() as int));
            } else {
                assert(is_lower_bound(ns, id, p.len() as int));
            }
        }
    }
}

/// Whether a table view is in order: its local id and node ids have 32
/// bytes and its buckets are in order.
pub open spec fn table_wf(t: RoutingTableView) -> bool {
    &&& t.id.len() == 32
    &&& buckets_wf(t.id, t.buckets)
    &&& forall|b: int, j: int| 0 <= b < 256 && 0 <= j < t.buckets[b].len() ==> (#[trigger] t.buckets[b][j]).id@.len() == 32
}

impl RoutingTable {
    /// No bucket holds more than `k` nodes, and the size counts the nodes.
    pub proof fn lemma_bucket_capacity(&self)
        requires
            self.wf(),
        ensures
            forall|b: int| 0 <= b < 256 ==> (#[trigger] self@.buckets[b]).len() <= self@.k,
            self@.size == total(self@.buckets),
            self@.buckets.len() == 256,
    {
    }

    /// A table in order has a view in order.
    pub proof fn lemma_wf_view(&self)
        requires
            self.wf(),
        ensures
            table_wf(self@),
    {
        assert forall|b: int, j: int| 0 <= b < 256 && 0 <= j < self@.buckets[b].len() implies (#[trigger] self@.buckets[b][j]).id@.len() == 32 by {}
    }
}

/// A node that was added is found under its id.
pub proof fn lemma_add_then_get(t: RoutingTableView, node: Node)
    requires
        table_wf(t),
        node.id@.len() == 32,
    ensures
        added(t, node).1 ==> lookup(added(t, node).0, node.id@) == Some(node),
        !added(t, node).1 ==> lookup(added(t, node).0, node.id@) == lookup(t, node.id@),
{
    let b = bucket_of(t.id, node.id@);
    lemma_bucket_of_range(t.id, node.id@);
    let ns = t.buckets[b];
    lemma_lower_bound_exists(ns, node.id@);
    let j = lower_bound(ns, node.id@);
    lemma_id_order(node.id@, node.id@, node.id@);
    if found_at(ns, node.id@) {
        let m = ns.update(j, node);
        assert(is_lower_bound(m, node.id@, j)) by {
            assert forall|x: int| 0 <= x < j implies id_lt(#[trigger] m[x].id@, node.id@) by {
                assert(m[x] == ns[x]);
            }
        }
        assert(sorted_by_id(m)) by {
            assert forall|a: int, c: int| 0 <= a < c < m.len() implies id_lt(#[trigger] m[a].id@, #[trigger] m[c].id@) by {
                assert(m[a].id@ == ns[a].id@ && m[c].id@ == ns[c].id@);
            }
        }
        lemma_lower_bound_unique(m, node.id@, j);
        assert(added(t, node).0.buckets[b] == m);
    } else if ns.len() < t.k {
        let m = ns.insert(j, node);
        assert(is_lower_bound(m, node.id@, j)) by {
            assert forall|x: int| 0 <= x < j implies id_lt(#[trigger] m[x].id@, node.id@) by {
                assert(m[x] == ns[x]);
            }
        }
        assert forall|y: int| 0 <= y < ns.len() implies (#[trigger] ns[y]).id@.len() == 32 by {}
        lemma_insert_sorted(ns, node, j);
        lemma_lower_bound_unique(m, node.id@, j);
        assert(added(t, node).0.buckets[b] == m);
    }
}

proof fn lemma_bucket_of_range(local: Seq<u8>, id: Seq<u8>)
    requires
        local.len() == 32,
        id.len() == 32,
    ensures
        0 <= bucket_of(local, id) < 256,
{
    broadcast use vstd::std_specs::bits::axiom_u8_leading_zeros;

    lemma_first_diff(id, local);
    let i = first_diff(id, local);
    if i < 32 {
        let p = id[i];
        let q = local[i];
        assert(p ^ q != 0) by (bit_vector)
            requires
                p != q,
        ;
    }
}

/// After a removal the id is gone, and what came back is what the table held.
pub proof fn lemma_remove_then_get(t: RoutingTableView, id: Seq<u8>)
    requires
        table_wf(t),
        id.len() == 32,
    ensures
        lookup(removed(t, id).0, id) is None,
        removed(t, id).1 == lookup(t, id),
{
    let b = bucket_of(t.id, id);
    lemma_bucket_of_range(t.id, id);
    let ns = t.buckets[b];
    lemma_lower_bound_exists(ns, id);
    let j = lower_bound(ns, id);
    if found_at(ns, id) {
        let m = ns.remove(j);
        assert forall|y: int| 0 <= y < ns.len() implies (#[trigger] ns[y]).id@.len() == 32 by {}
        lemma_remove_sorted(ns, j);
        assert(is_lower_bound(m, id, j)) by {
            assert forall|x: int| 0 <= x < j implies id_lt(#[trigger] m[x].id@, id) by {
                assert(m[x] == ns[x]);
            }
            if j < m.len() {
                assert(m[j] == ns[j + 1]);
                assert(id_lt(ns[j].id@, ns[j + 1].id@));
                lemma_id_order(id, ns[j + 1].id@, ns[j + 1].id@);
            }
        }
        lemma_lower_bound_unique(m, id, j);
        if j < m.len() {
            assert(m[j] == ns[j + 1]);
            assert(id_lt(ns[j].id@, ns[j + 1].id@));
            lemma_id_order(id, ns[j + 1].id@, ns[j + 1].id@);
        }
        assert(removed(t, id).0.buckets[b] == m);
    }
}

} // verus!
