//! NAT classification: from the addresses other nodes report seeing us at,
//! decide whether we are open, behind a consistent NAT (a stable public
//! port) or behind a random one, and which addresses to announce.
use vstd::prelude::*;
use crate::hyperdht_messages::{FIREWALL_CONSISTENT, FIREWALL_OPEN, FIREWALL_RANDOM, FIREWALL_UNKNOWN};
use crate::messages::Ipv4Peer;
use vstd::pervasive::VecAdditionalExecFns;

verus! {

/// One reported address and how often it was reported.
#[derive(Debug, Clone)]
pub struct Sample {
    pub host: String,
    pub port: u16,
    pub hits: u32,
}

/// A sample as plain values.
pub type SampleView = (Seq<char>, u16, u32);

/// The plain values of a list of samples.
pub open spec fn samples_view(s: Seq<Sample>) -> Seq<SampleView> {
    s.map_values(|x: Sample| (x.host@, x.port, x.hits))
}

/// The first position from `i` on of the sample for `host` and `port`, or -1.
pub open spec fn find_sample_from(s: Seq<SampleView>, host: Seq<char>, port: u16, i: int) -> int
    decreases s.len() - i,
{
    if i < 0 || i >= s.len() {
        -1
    } else if s[i].0 == host && s[i].1 == port {
        i
    } else {
        find_sample_from(s, host, port, i + 1)
    }
}

/// Swaps positions `a` and `b`.
pub open spec fn swap_at(s: Seq<SampleView>, a: int, b: int) -> Seq<SampleView> {
    s.update(a, s[b]).update(b, s[a])
}

/// Moves the sample at `j` towards the front while its neighbour in front
/// has fewer hits.
pub open spec fn bubble(s: Seq<SampleView>, j: int) -> Seq<SampleView>
    decreases j,
{
    if 0 < j < s.len() && s[j - 1].2 < s[j].2 {
        bubble(swap_at(s, j - 1, j), j - 1)
    } else {
        s
    }
}

/// The samples after one more report of `host` and `port`: a known address
/// gets a hit and moves in front of every sample with fewer hits; a new one
/// goes last with one hit.
pub open spec fn sample_added(s: Seq<SampleView>, host: Seq<char>, port: u16) -> Seq<SampleView> {
    let i = find_sample_from(s, host, port, 0);
    if i >= 0 {
        bubble(s.update(i, (s[i].0, s[i].1, (s[i].2 + 1) as u32)), i)
    } else {
        s.push((host, port, 1))
    }
}

/// Samples in order of hits, most first.
pub open spec fn sorted_by_hits(s: Seq<SampleView>) -> bool {
    forall|a: int, b: int| 0 <= a < b < s.len() ==> (#[trigger] s[a]).2 >= (#[trigger] s[b]).2
}

proof fn lemma_find_sample_from(s: Seq<SampleView>, host: Seq<char>, port: u16, i: int)
    requires
        0 <= i <= s.len(),
    ensures
        -1 <= find_sample_from(s, host, port, i) < s.len(),
        find_sample_from(s, host, port, i) >= 0 ==> i <= find_sample_from(s, host, port, i)
            && s[find_sample_from(s, host, port, i)].0 == host && s[find_sample_from(s, host, port, i)].1 == port,
        forall|j: int|
            i <= j < s.len() && (find_sample_from(s, host, port, i) < 0 || j < find_sample_from(s, host, port, i))
                ==> !(s[j].0 == host && s[j].1 == port),
    decreases s.len() - i,
{
    if i < s.len() && !(s[i].0 == host && s[i].1 == port) {
        lemma_find_sample_from(s, host, port, i + 1);
    }
}

fn swap_samples(samples: &mut Vec<Sample>, a: usize, b: usize)
    requires
        a < b < old(samples)@.len(),
    ensures
        samples_view(final(samples)@) == swap_at(samples_view(old(samples)@), a as int, b as int),
        final(samples)@.len() == old(samples)@.len(),
{
    let ghost s0 = samples@;
    let mut tmp = Sample { host: String::new(), port: 0, hits: 0 };
    samples.set_and_swap(a, &mut tmp);
    samples.set_and_swap(b, &mut tmp);
    samples.set(a, tmp);
    proof {
        assert(samples_view(samples@) =~= swap_at(samples_view(s0), a as int, b as int));
    }
}

/// Records one more report of `host` and `port`: a known address gets a hit
/// and bubbles up past samples with fewer hits; a new one goes last.
pub fn add_sample(samples: &mut Vec<Sample>, host: &str, port: u16)
    requires
        forall|i: int| 0 <= i < old(samples)@.len() ==> (#[trigger] old(samples)@[i]).hits < u32::MAX,
    ensures
        samples_view(final(samples)@) == sample_added(samples_view(old(samples)@), host@, port),
{
    broadcast use vstd::string::to_string_from_display_ensures_for_str;

    let ghost s0 = samples_view(samples@);
    let h = host.to_string();
    proof {
        lemma_find_sample_from(s0, host@, port, 0);
    }
    let mut i: usize = 0;
    while i < samples.len()
        invariant
            i <= samples@.len(),
            samples_view(samples@) == s0,
            h@ == host@,
            s0 == samples_view(old(samples)@),
            forall|x: int| 0 <= x < old(samples)@.len() ==> (#[trigger] old(samples)@[x]).hits < u32::MAX,
            find_sample_from(s0, host@, port, 0) == find_sample_from(s0, host@, port, i as int),
            0 <= i <= s0.len(),
        decreases samples@.len() - i,
    {
        proof {
            assert(s0[i as int] == (samples@[i as int].host@, samples@[i as int].port, samples@[i as int].hits));
        }
        if samples[i].port == port && samples[i].host == h {
            let s = Sample { host: samples[i].host.clone(), port: samples[i].port, hits: samples[i].hits + 1 };
            samples.set(i, s);
            let ghost s1 = samples_view(samples@);
            proof {
                assert(s1 =~= s0.update(i as int, (s0[i as int].0, s0[i as int].1, (s0[i as int].2 + 1) as u32)));
            }
            let mut j: usize = i;
            while j > 0 && samples[j - 1].hits < samples[j].hits
                invariant
                    j <= i < samples@.len(),
                    bubble(samples_view(samples@), j as int) == bubble(s1, i as int),
                decreases j,
            {
                let ghost before = samples_view(samples@);
                swap_samples(samples, j - 1, j);
                proof {
                    assert(samples_view(samples@) =~= swap_at(before, j - 1, j as int));
                }
                j = j - 1;
            }
            return;
        }
        i = i + 1;
    }
    samples.push(Sample { host: h, port, hits: 1 });
    proof {
        assert(samples_view(samples@) =~= s0.push((host@, port, 1u32)));
    }
}

/// One more report keeps samples in order of hits.
pub proof fn lemma_sample_added_sorted(s: Seq<SampleView>, host: Seq<char>, port: u16)
    requires
        sorted_by_hits(s),
        forall|i: int| 0 <= i < s.len() ==> (#[trigger] s[i]).2 >= 1 && s[i].2 < u32::MAX,
    ensures
        sorted_by_hits(sample_added(s, host, port)),
        sample_added(s, host, port).len() >= s.len(),
{
    lemma_find_sample_from(s, host, port, 0);
    let i = find_sample_from(s, host, port, 0);
    if i >= 0 {
        let t = s.update(i, (s[i].0, s[i].1, (s[i].2 + 1) as u32));
        lemma_bubble_sorted(t, i);
    }
}

/// Bubbling the one sample that gained a hit restores the order of hits.
proof fn lemma_bubble_sorted(t: Seq<SampleView>, j: int)
    requires
        0 <= j < t.len(),
        forall|a: int, b: int| 0 <= a < b < t.len() && a != j && b != j ==> (#[trigger] t[a]).2 >= (#[trigger] t[b]).2,
        forall|b: int| j < b < t.len() ==> t[j].2 >= (#[trigger] t[b]).2,
        forall|a: int| 0 <= a < j ==> (#[trigger] t[a]).2 + 1 >= t[j].2,
    ensures
        sorted_by_hits(bubble(t, j)),
        bubble(t, j).len() == t.len(),
    decreases j,
{
    if 0 < j && t[j - 1].2 < t[j].2 {
        let u = swap_at(t, j - 1, j);
        assert forall|a: int, b: int| 0 <= a < b < u.len() && a != j - 1 && b != j - 1 implies (#[trigger] u[a]).2 >= (#[trigger] u[b]).2 by {
            if a == j {
                assert(u[a] == t[j - 1]);
                assert(t[j - 1].2 + 1 >= t[j].2);
                assert(t[j].2 >= t[b].2);
            } else if b == j {
                assert(u[b] == t[j - 1]);
            }
        }
        assert forall|b: int| j - 1 < b < u.len() implies u[j - 1].2 >= (#[trigger] u[b]).2 by {
            if b == j {
                assert(u[b] == t[j - 1]);
            } else {
                assert(u[b] == t[b]);
            }
        }
        assert forall|a: int| 0 <= a < j - 1 implies (#[trigger] u[a]).2 + 1 >= u[j - 1].2 by {
            assert(u[a] == t[a]);
            assert(u[j - 1] == t[j]);
            assert(t[a].2 >= t[j - 1].2);
        }
        lemma_bubble_sorted(u, j - 1);
    } else {
        assert forall|a: int, b: int| 0 <= a < b < t.len() implies (#[trigger] t[a]).2 >= (#[trigger] t[b]).2 by {
            if b == j && a < j {
                if a < j - 1 {
                    assert(t[a].2 >= t[j - 1].2);
                }
            }
        }
    }
}

// ── The classifier ──────────────────────────────────────────────────────────

/// A visited-peer entry: host, port and mark (1 seen, 2 sampled).
pub type VisitedView = (Seq<char>, u16, u8);

/// The mark of `host` and `port` in a visited list, if any.
pub open spec fn visited_get(v: Seq<VisitedView>, host: Seq<char>, port: u16) -> Option<u8>
    decreases v.len(),
{
    if v.len() == 0 {
        None
    } else if v.last().0 == host && v.last().1 == port {
        Some(v.last().2)
    } else {
        visited_get(v.drop_last(), host, port)
    }
}

/// A visited list with `host` and `port` marked `m`.
pub open spec fn visited_set(v: Seq<VisitedView>, host: Seq<char>, port: u16, m: u8) -> Seq<VisitedView> {
    v.push((host, port, m))
}

/// The NAT classifier.
#[derive(Debug)]
pub struct Nat {
    samples_host: Vec<Sample>,
    samples_full: Vec<Sample>,
    visited: Vec<(String, u16, u8)>,
    frozen: bool,
    pub firewalled: bool,
    pub sampled: u32,
    pub firewall: u64,
    pub addresses: Option<Vec<Ipv4Peer>>,
}

/// The classifier as plain values.
pub struct NatView {
    pub samples_host: Seq<SampleView>,
    pub samples_full: Seq<SampleView>,
    pub visited: Seq<VisitedView>,
    pub frozen: bool,
    pub firewalled: bool,
    pub sampled: u32,
    pub firewall: u64,
    pub addresses: Option<Seq<(Seq<char>, u16)>>,
}

/// The plain values of a visited list.
pub open spec fn visited_view(v: Seq<(String, u16, u8)>) -> Seq<VisitedView> {
    v.map_values(|e: (String, u16, u8)| (e.0@, e.1, e.2))
}

impl View for Nat {
    type V = NatView;

    closed spec fn view(&self) -> NatView {
        NatView {
            samples_host: samples_view(self.samples_host@),
            samples_full: samples_view(self.samples_full@),
            visited: visited_view(self.visited@),
            frozen: self.frozen,
            firewalled: self.firewalled,
            sampled: self.sampled,
            firewall: self.firewall,
            addresses: match self.addresses {
                Some(a) => Some(crate::messages::peers_view(a@)),
                None => None,
            },
        }
    }
}

/// The firewall decision from the samples.
pub open spec fn decide_firewall(n: NatView) -> u64 {
    if !n.firewalled {
        FIREWALL_OPEN
    } else if n.sampled < 3 || n.samples_full.len() == 0 {
        n.firewall
    } else {
        let max = n.samples_full[0].2;
        if max >= 3 {
            FIREWALL_CONSISTENT
        } else if max == 1 {
            FIREWALL_RANDOM
        } else if n.samples_host.len() == 1 && n.sampled > 3 {
            FIREWALL_RANDOM
        } else if n.samples_host.len() > 1 && n.samples_full.len() > 1 && n.samples_full[1].2 > 1 {
            FIREWALL_CONSISTENT
        } else if n.sampled > 4 {
            FIREWALL_RANDOM
        } else {
            n.firewall
        }
    }
}

/// The addresses of a consistent NAT: every sample hit at least twice, and
/// the first samples until two are taken.
pub open spec fn consistent_addresses(s: Seq<SampleView>) -> Seq<(Seq<char>, u16)>
    decreases s.len(),
{
    if s.len() == 0 {
        Seq::empty()
    } else {
        let prev = consistent_addresses(s.drop_last());
        if s.last().2 >= 2 || prev.len() < 2 {
            prev.push((s.last().0, s.last().1))
        } else {
            prev
        }
    }
}

/// The addresses to announce for the current firewall.
pub open spec fn decide_addresses(n: NatView) -> Option<Seq<(Seq<char>, u16)>> {
    if n.firewall == FIREWALL_UNKNOWN {
        None
    } else if n.firewall == FIREWALL_RANDOM {
        if n.samples_host.len() > 0 {
            Some(seq![(n.samples_host[0].0, n.samples_host[0].1)])
        } else {
            n.addresses
        }
    } else if n.firewall == FIREWALL_CONSISTENT {
        Some(consistent_addresses(n.samples_full))
    } else {
        n.addresses
    }
}

/// The classifier after deciding its firewall, then its addresses.
pub open spec fn refreshed(n: NatView) -> NatView {
    let m = NatView { firewall: decide_firewall(n), ..n };
    NatView { addresses: decide_addresses(m), ..m }
}

/// The classifier after an update: a firewalled node that was open starts
/// over as unknown, then the firewall and addresses are decided.
pub open spec fn updated(n: NatView) -> NatView {
    refreshed(
        if n.firewalled && n.firewall == FIREWALL_OPEN {
            NatView { firewall: FIREWALL_UNKNOWN, ..n }
        } else {
            n
        },
    )
}

/// The classifier after `from` reported seeing us at `addr`: a reporter is
/// counted once; its report is sampled by host and by host and port, and the
/// classifier updates once three reports are in (at once when not
/// firewalled) unless frozen.
pub open spec fn nat_added(n: NatView, addr: (Seq<char>, u16), from: (Seq<char>, u16)) -> NatView {
    if visited_get(n.visited, from.0, from.1) == Some(2u8) {
        n
    } else {
        let m = NatView {
            visited: visited_set(n.visited, from.0, from.1, 2),
            samples_host: sample_added(n.samples_host, addr.0, 0),
            samples_full: sample_added(n.samples_full, addr.0, addr.1),
            sampled: (n.sampled + 1) as u32,
            ..n
        };
        if (m.sampled >= 3 || !m.firewalled) && !m.frozen {
            updated(m)
        } else {
            m
        }
    }
}

impl Nat {
    /// The classifier's invariant: samples in order of hits, each hit at
    /// least once and at most as often as reports were sampled.
    pub closed spec fn wf(&self) -> bool {
        let v = self@;
        &&& sorted_by_hits(v.samples_host)
        &&& sorted_by_hits(v.samples_full)
        &&& forall|i: int| 0 <= i < v.samples_host.len() ==> 1 <= (#[trigger] v.samples_host[i]).2 <= v.sampled
        &&& forall|i: int| 0 <= i < v.samples_full.len() ==> 1 <= (#[trigger] v.samples_full[i]).2 <= v.sampled
    }

    /// A classifier with no samples: open unless `firewalled`.
    pub fn new(firewalled: bool) -> (n: Self)
        ensures
            n.wf(),
            n@ == (NatView {
                samples_host: Seq::empty(),
                samples_full: Seq::empty(),
                visited: Seq::empty(),
                frozen: false,
                firewalled,
                sampled: 0,
                firewall: if firewalled {
                    FIREWALL_UNKNOWN
                } else {
                    FIREWALL_OPEN
                },
                addresses: None,
            }),
    {
        let n = Nat {
            samples_host: Vec::new(),
            samples_full: Vec::new(),
            visited: Vec::new(),
            frozen: false,
            firewalled,
            sampled: 0,
            firewall: if firewalled {
                FIREWALL_UNKNOWN
            } else {
                FIREWALL_OPEN
            },
            addresses: None,
        };
        proof {
            assert(n@.samples_host =~= Seq::<SampleView>::empty());
            assert(n@.samples_full =~= Seq::<SampleView>::empty());
            assert(n@.visited =~= Seq::<VisitedView>::empty());
        }
        n
    }

    /// Stops further updates.
    pub fn destroy(&mut self)
        ensures
            final(self)@ == (NatView { frozen: true, ..old(self)@ }),
            old(self).wf() ==> final(self).wf(),
    {
        self.frozen = true;
    }

    /// Stops updates until [`Nat::unfreeze`].
    pub fn freeze(&mut self)
        ensures
            final(self)@ == (NatView { frozen: true, ..old(self)@ }),
            old(self).wf() ==> final(self).wf(),
    {
        self.frozen = true;
    }

    fn update_firewall(&mut self)
        ensures
            final(self)@ == (NatView { firewall: decide_firewall(old(self)@), ..old(self)@ }),
    {
        if !self.firewalled {
            self.firewall = FIREWALL_OPEN;
            return;
        }
        if self.sampled < 3 {
            return;
        }
        if self.samples_full.len() == 0 {
            return;
        }
        let max = self.samples_full[0].hits;
        if max >= 3 {
            self.firewall = FIREWALL_CONSISTENT;
            return;
        }
        if max == 1 {
            self.firewall = FIREWALL_RANDOM;
            return;
        }
        if self.samples_host.len() == 1 && self.sampled > 3 {
            self.firewall = FIREWALL_RANDOM;
            return;
        }
        if self.samples_host.len() > 1 && self.samples_full.len() > 1 && self.samples_full[1].hits > 1 {
            self.firewall = FIREWALL_CONSISTENT;
            return;
        }
        if self.sampled > 4 {
            self.firewall = FIREWALL_RANDOM;
        }
    }

    fn update_addresses(&mut self)
        ensures
            final(self)@ == (NatView { addresses: decide_addresses(old(self)@), ..old(self)@ }),
    {
        let ghost v = self@;
        if self.firewall == FIREWALL_UNKNOWN {
            self.addresses = None;
            return;
        }
        if self.firewall == FIREWALL_RANDOM {
            if self.samples_host.len() > 0 {
                let s = &self.samples_host[0];
                let p = Ipv4Peer { host: s.host.clone(), port: s.port };
                let mut a: Vec<Ipv4Peer> = Vec::new();
                a.push(p);
                self.addresses = Some(a);
                proof {
                    assert(crate::messages::peers_view(a@) =~= seq![(v.samples_host[0].0, v.samples_host[0].1)]);
                }
            }
            return;
        }
        if self.firewall == FIREWALL_CONSISTENT {
            let mut addrs: Vec<Ipv4Peer> = Vec::new();
            let mut i: usize = 0;
            while i < self.samples_full.len()
                invariant
                    i <= self.samples_full@.len(),
                    v.samples_full == samples_view(self.samples_full@),
                    crate::messages::peers_view(addrs@) == consistent_addresses(v.samples_full.take(i as int)),
                decreases self.samples_full@.len() - i,
            {
                let s = &self.samples_full[i];
                proof {
                    assert(v.samples_full.take(i + 1).drop_last() =~= v.samples_full.take(i as int));
                    assert(v.samples_full[i as int] == (s.host@, s.port, s.hits));
                }
                if s.hits >= 2 || addrs.len() < 2 {
                    let ghost before = addrs@;
                    addrs.push(Ipv4Peer { host: s.host.clone(), port: s.port });
                    proof {
                        assert(crate::messages::peers_view(addrs@) =~= crate::messages::peers_view(before).push(
                            (s.host@, s.port),
                        ));
                    }
                }
                i = i + 1;
            }
            proof {
                assert(v.samples_full.take(i as int) =~= v.samples_full);
            }
            self.addresses = Some(addrs);
        }
    }

    /// Resumes updates and decides again.
    pub fn unfreeze(&mut self)
        ensures
            final(self)@ == refreshed(NatView { frozen: false, ..old(self)@ }),
            old(self).wf() ==> final(self).wf(),
    {
        self.frozen = false;
        self.update_firewall();
        self.update_addresses();
    }

    /// Decides the firewall and addresses again; a firewalled node that was
    /// open starts over as unknown.
    pub fn update(&mut self)
        ensures
            final(self)@ == updated(old(self)@),
            old(self).wf() ==> final(self).wf(),
    {
        if self.firewalled && self.firewall == FIREWALL_OPEN {
            self.firewall = FIREWALL_UNKNOWN;
        }
        self.update_firewall();
        self.update_addresses();
    }

    /// Whether the firewall is settled: consistent or open.
    pub fn is_settled(&self) -> (b: bool)
        ensures
            b == (self@.firewall == FIREWALL_CONSISTENT || self@.firewall == FIREWALL_OPEN),
    {
        self.firewall == FIREWALL_CONSISTENT || self.firewall == FIREWALL_OPEN
    }

    fn find_visited(&self, host: &String, port: u16) -> (r: Option<u8>)
        ensures
            r == visited_get(self@.visited, host@, port),
    {
        let ghost v = self@.visited;
        let mut i: usize = self.visited.len();
        proof {
            assert(v.take(i as int) =~= v);
        }
        while i > 0
            invariant
                i <= self.visited@.len(),
                v == visited_view(self.visited@),
                visited_get(v, host@, port) == visited_get(v.take(i as int), host@, port),
            decreases i,
        {
            let e = &self.visited[i - 1];
            proof {
                assert(v.take(i as int).drop_last() =~= v.take(i - 1));
                assert(v.take(i as int).last() == (e.0@, e.1, e.2));
            }
            if e.1 == port && e.0 == *host {
                return Some(e.2);
            }
            i = i - 1;
        }
        None
    }

    /// Marks `host:port` as visited; false if it already was.
    pub fn mark_visited(&mut self, host: &str, port: u16) -> (fresh: bool)
        ensures
            fresh == (visited_get(old(self)@.visited, host@, port) is None),
            fresh ==> final(self)@ == (NatView { visited: visited_set(old(self)@.visited, host@, port, 1), ..old(self)@ }),
            !fresh ==> final(self)@ == old(self)@,
            old(self).wf() ==> final(self).wf(),
    {
        broadcast use vstd::string::to_string_from_display_ensures_for_str;

        let h = host.to_string();
        if self.find_visited(&h, port).is_some() {
            return false;
        }
        let ghost v0 = self@;
        self.visited.push((h, port, 1));
        proof {
            assert(self@.visited =~= visited_set(v0.visited, host@, port, 1));
            assert(self@.samples_host == v0.samples_host);
        }
        true
    }

    /// Takes the report of `from` that it sees us at `addr`. A reporter is
    /// counted once; the classifier updates after three reports (at once when
    /// not firewalled) unless frozen.
    pub fn add(&mut self, addr: &Ipv4Peer, from: &Ipv4Peer)
        requires
            old(self).wf(),
            old(self)@.sampled < u32::MAX,
        ensures
            final(self).wf(),
            final(self)@ == nat_added(old(self)@, addr@, from@),
    {
        let ghost n0 = self@;
        if self.find_visited(&from.host, from.port) == Some(2u8) {
            return;
        }
        let h = from.host.clone();
        self.visited.push((h, from.port, 2));
        proof {
            assert(self@.visited =~= visited_set(n0.visited, from.host@, from.port, 2));
            assert forall|i: int| 0 <= i < self.samples_host@.len() implies (#[trigger] self.samples_host@[i]).hits < u32::MAX by {
                assert(n0.samples_host[i].2 == self.samples_host@[i].hits);
            }
            assert forall|i: int| 0 <= i < self.samples_full@.len() implies (#[trigger] self.samples_full@[i]).hits < u32::MAX by {
                assert(n0.samples_full[i].2 == self.samples_full@[i].hits);
            }
        }
        add_sample(&mut self.samples_host, addr.host.as_str(), 0);
        add_sample(&mut self.samples_full, addr.host.as_str(), addr.port);
        self.sampled = self.sampled + 1;
        proof {
            lemma_sample_added_sorted(n0.samples_host, addr.host@, 0);
            lemma_sample_added_sorted(n0.samples_full, addr.host@, addr.port);
            lemma_sample_added_hits(n0.samples_host, addr.host@, 0, n0.sampled);
            lemma_sample_added_hits(n0.samples_full, addr.host@, addr.port, n0.sampled);
        }
        if (self.sampled >= 3 || !self.firewalled) && !self.frozen {
            self.update();
        }
    }
}

proof fn lemma_bubble_bounds(t: Seq<SampleView>, j: int, lo: int, hi: int)
    requires
        forall|i: int| 0 <= i < t.len() ==> lo <= (#[trigger] t[i]).2 <= hi,
    ensures
        bubble(t, j).len() == t.len(),
        forall|x: int| 0 <= x < t.len() ==> lo <= (#[trigger] bubble(t, j)[x]).2 <= hi,
    decreases j,
{
    if 0 < j < t.len() && t[j - 1].2 < t[j].2 {
        let u = swap_at(t, j - 1, j);
        assert forall|i: int| 0 <= i < u.len() implies lo <= (#[trigger] u[i]).2 <= hi by {
            if i == j - 1 {
                assert(u[i] == t[j]);
            } else if i == j {
                assert(u[i] == t[j - 1]);
            } else {
                assert(u[i] == t[i]);
            }
        }
        lemma_bubble_bounds(u, j - 1, lo, hi);
    }
}

/// One more report keeps every sample hit at least once and at most once
/// per sampled report.
proof fn lemma_sample_added_hits(s: Seq<SampleView>, host: Seq<char>, port: u16, sampled: u32)
    requires
        forall|i: int| 0 <= i < s.len() ==> 1 <= (#[trigger] s[i]).2 <= sampled,
        sampled < u32::MAX,
    ensures
        forall|i: int|
            0 <= i < sample_added(s, host, port).len() ==> 1 <= (#[trigger] sample_added(s, host, port)[i]).2 <= sampled + 1,
{
    lemma_find_sample_from(s, host, port, 0);
    let i = find_sample_from(s, host, port, 0);
    if i >= 0 {
        let t = s.update(i, (s[i].0, s[i].1, (s[i].2 + 1) as u32));
        assert forall|y: int| 0 <= y < t.len() implies 1 <= (#[trigger] t[y]).2 <= sampled + 1 by {
            if y != i {
                assert(t[y] == s[y]);
            }
        }
        lemma_bubble_bounds(t, i, 1, sampled + 1);
    } else {
        assert forall|x: int| 0 <= x < sample_added(s, host, port).len() implies 1 <= (#[trigger] sample_added(s, host, port)[x]).2 <= sampled + 1 by {
            if x < s.len() {
                assert(sample_added(s, host, port)[x] == s[x]);
            }
        }
    }
}


// ── Laws ────────────────────────────────────────────────────────────────────

/// A reporter is counted once: a second report from the same address
/// changes nothing.
pub proof fn lemma_add_same_reporter(n: NatView, a: (Seq<char>, u16), b: (Seq<char>, u16), from: (Seq<char>, u16))
    ensures
        nat_added(nat_added(n, a, from), b, from) == nat_added(n, a, from),
{
    let m = nat_added(n, a, from);
    if visited_get(n.visited, from.0, from.1) != Some(2u8) {
        let v = visited_set(n.visited, from.0, from.1, 2);
        assert(v.last() == (from.0, from.1, 2u8));
        assert(m.visited == v);
    }
}

/// A node that is not firewalled and not frozen is open after a new report.
pub proof fn lemma_add_unfirewalled_open(n: NatView, a: (Seq<char>, u16), from: (Seq<char>, u16))
    requires
        !n.firewalled,
        !n.frozen,
        visited_get(n.visited, from.0, from.1) != Some(2u8),
    ensures
        nat_added(n, a, from).firewall == FIREWALL_OPEN,
{
}

/// A frozen classifier keeps its firewall and addresses whatever is reported.
pub proof fn lemma_add_frozen_keeps(n: NatView, a: (Seq<char>, u16), from: (Seq<char>, u16))
    requires
        n.frozen,
    ensures
        nat_added(n, a, from).firewall == n.firewall,
        nat_added(n, a, from).addresses == n.addresses,
{
}

/// Marking an address twice: the second mark finds it visited.
pub proof fn lemma_mark_visited_twice(v: Seq<VisitedView>, host: Seq<char>, port: u16)
    ensures
        visited_get(visited_set(v, host, port, 1), host, port) == Some(1u8),
{
    assert(visited_set(v, host, port, 1).last() == (host, port, 1u8));
}

/// No two samples share a host and port.
pub open spec fn pairs_distinct(s: Seq<SampleView>) -> bool {
    forall|a: int, b: int|
        0 <= a < s.len() && 0 <= b < s.len() && a != b ==> (#[trigger] s[a]).0 != (#[trigger] s[b]).0 || s[a].1 != s[b].1
}

/// Moving a sample forward keeps host and port pairs distinct.
proof fn lemma_bubble_distinct(t: Seq<SampleView>, j: int)
    requires
        pairs_distinct(t),
    ensures
        pairs_distinct(bubble(t, j)),
    decreases j,
{
    if 0 < j < t.len() && t[j - 1].2 < t[j].2 {
        let u = swap_at(t, j - 1, j);
        assert forall|a: int, b: int| 0 <= a < u.len() && 0 <= b < u.len() && a != b implies (#[trigger] u[a]).0
            != (#[trigger] u[b]).0 || u[a].1 != u[b].1 by {
            let pa = if a == j - 1 { j } else if a == j { j - 1 } else { a };
            let pb = if b == j - 1 { j } else if b == j { j - 1 } else { b };
            assert(u[a] == t[pa]);
            assert(u[b] == t[pb]);
        }
        lemma_bubble_distinct(u, j - 1);
    }
}

/// One more report keeps host and port pairs distinct, and afterwards the
/// reported pair is among the samples.
pub proof fn lemma_sample_added_distinct(s: Seq<SampleView>, host: Seq<char>, port: u16)
    requires
        pairs_distinct(s),
    ensures
        pairs_distinct(sample_added(s, host, port)),
        exists|k: int|
            0 <= k < sample_added(s, host, port).len() && (#[trigger] sample_added(s, host, port)[k]).0 == host
                && sample_added(s, host, port)[k].1 == port,
{
    lemma_find_sample_from(s, host, port, 0);
    let i = find_sample_from(s, host, port, 0);
    if i >= 0 {
        let t = s.update(i, (s[i].0, s[i].1, (s[i].2 + 1) as u32));
        assert forall|a: int, b: int| 0 <= a < t.len() && 0 <= b < t.len() && a != b implies (#[trigger] t[a]).0
            != (#[trigger] t[b]).0 || t[a].1 != t[b].1 by {
            assert(t[a].0 == s[a].0 && t[a].1 == s[a].1);
            assert(t[b].0 == s[b].0 && t[b].1 == s[b].1);
        }
        lemma_bubble_distinct(t, i);
        lemma_bubble_keeps_pair(t, i, host, port);
    } else {
        let t = s.push((host, port, 1u32));
        assert forall|a: int, b: int| 0 <= a < t.len() && 0 <= b < t.len() && a != b implies (#[trigger] t[a]).0
            != (#[trigger] t[b]).0 || t[a].1 != t[b].1 by {
            if a < s.len() {
                assert(t[a] == s[a]);
            }
            if b < s.len() {
                assert(t[b] == s[b]);
            }
        }
        assert(t[s.len() as int].0 == host);
    }
}

/// Moving a sample forward keeps every host and port pair present.
proof fn lemma_bubble_keeps_pair(t: Seq<SampleView>, j: int, host: Seq<char>, port: u16)
    requires
        0 <= j < t.len(),
        t[j].0 == host && t[j].1 == port,
    ensures
        exists|k: int| 0 <= k < bubble(t, j).len() && (#[trigger] bubble(t, j)[k]).0 == host && bubble(t, j)[k].1 == port,
    decreases j,
{
    if 0 < j < t.len() && t[j - 1].2 < t[j].2 {
        let u = swap_at(t, j - 1, j);
        assert(u[j - 1] == t[j]);
        lemma_bubble_keeps_pair(u, j - 1, host, port);
        assert(bubble(t, j) == bubble(u, j - 1));
    } else {
        assert(bubble(t, j) == t);
        assert(bubble(t, j)[j].0 == host);
    }
}

} // verus!
