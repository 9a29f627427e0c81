//! IPv6 text: how it is read and how it is written.
//!
//! Reading follows the text forms of RFC 4291 section 2.2 as the standard
//! library's `Ipv6Addr::from_str` accepts them: up to eight groups of one to
//! four hexadecimal digits separated by colons, at most one `::` standing for
//! one or more zero groups, and an optional dotted-quad IPv4 address (decimal
//! octets without leading zeros) in the place of the last two groups.
//!
//! Writing follows RFC 5952 as `Ipv6Addr`'s `Display` does: an IPv4-mapped
//! address as `::ffff:a.b.c.d`; otherwise lower-case groups without leading
//! zeros, with the first longest run of two or more zero groups written `::`.
use vstd::prelude::*;
use crate::text::{ipv4_text, format_ipv4};
use crate::hex::hex_char;
use vstd::string::StringExecFns;

verus! {

// ── Reading ─────────────────────────────────────────────────────────────────

/// The value of `c` as a digit in base 16 (`hex`) or 10, if it is one.
pub open spec fn digit_of(c: char, hex: bool) -> Option<nat> {
    if '0' <= c && c <= '9' {
        Some(((c as u32) - ('0' as u32)) as nat)
    } else if hex && 'a' <= c && c <= 'f' {
        Some(((c as u32) - ('a' as u32) + 10) as nat)
    } else if hex && 'A' <= c && c <= 'F' {
        Some(((c as u32) - ('A' as u32) + 10) as nat)
    } else {
        None
    }
}

/// The radix.
pub open spec fn radix(hex: bool) -> nat {
    if hex { 16 } else { 10 }
}

/// The number of digits in a row from `pos`.
pub open spec fn run_len(s: Seq<char>, pos: int, hex: bool) -> nat
    decreases s.len() - pos,
{
    if pos < 0 || pos >= s.len() || digit_of(s[pos], hex) is None {
        0
    } else {
        1 + run_len(s, pos + 1, hex)
    }
}

/// The value of the `k` digits from `pos`.
pub open spec fn run_value(s: Seq<char>, pos: int, k: nat, hex: bool) -> nat
    decreases k,
{
    if k == 0 {
        0
    } else {
        run_value(s, pos, (k - 1) as nat, hex) * radix(hex) + digit_of(s[pos + k - 1], hex)->0
    }
}

/// A number of at most `max` digits with a value of at most `bound`, read
/// from `pos` (all digits in a row are read); a leading zero is refused
/// where there are more digits unless `zero_prefix` allows it. The value
/// and the position after it.
pub open spec fn read_number(s: Seq<char>, pos: int, hex: bool, max: nat, zero_prefix: bool, bound: nat) -> Option<(nat, int)> {
    let k = run_len(s, pos, hex);
    if k == 0 || k > max || run_value(s, pos, k, hex) > bound || (!zero_prefix && s[pos] == '0' && k > 1) {
        None
    } else {
        Some((run_value(s, pos, k, hex), pos + k))
    }
}

/// The position after the separator that comes before item `i` (none before
/// the first).
pub open spec fn read_sep(s: Seq<char>, pos: int, i: nat, sep: char) -> Option<int> {
    if i == 0 {
        Some(pos)
    } else if 0 <= pos < s.len() && s[pos] == sep {
        Some(pos + 1)
    } else {
        None
    }
}

/// An IPv4 octet item: the separator `.` before all but the first, then a
/// decimal byte without leading zeros.
pub open spec fn read_octet(s: Seq<char>, pos: int, i: nat) -> Option<(nat, int)> {
    match read_sep(s, pos, i, '.') {
        None => None,
        Some(p) => read_number(s, p, false, 3, false, 255),
    }
}

/// A dotted-quad IPv4 address from `pos`: its four bytes and the position
/// after it.
pub open spec fn read_ipv4(s: Seq<char>, pos: int) -> Option<(Seq<u8>, int)> {
    match read_octet(s, pos, 0) {
        None => None,
        Some((a, p1)) => match read_octet(s, p1, 1) {
            None => None,
            Some((b, p2)) => match read_octet(s, p2, 2) {
                None => None,
                Some((c, p3)) => match read_octet(s, p3, 3) {
                    None => None,
                    Some((d, p4)) => Some((seq![a as u8, b as u8, c as u8, d as u8], p4)),
                },
            },
        },
    }
}

/// The two groups of four IPv4 bytes.
pub open spec fn ipv4_groups(b: Seq<u8>) -> Seq<u16> {
    seq![(b[0] * 256 + b[1]) as u16, (b[2] * 256 + b[3]) as u16]
}

/// Reads groups `i`, `i + 1`, ... up to `limit` from `pos`, after `acc`: the
/// groups, the position after them, and whether the last two came from an
/// IPv4 address (tried first wherever two groups are left).
pub open spec fn read_groups(s: Seq<char>, pos: int, i: nat, limit: nat, acc: Seq<u16>) -> (Seq<u16>, int, bool)
    decreases limit - i,
{
    if i >= limit {
        (acc, pos, false)
    } else {
        let v4 = if i + 1 < limit {
            match read_sep(s, pos, i, ':') {
                Some(p) => read_ipv4(s, p),
                None => None,
            }
        } else {
            None
        };
        match v4 {
            Some((b, p)) => (acc + ipv4_groups(b), p, true),
            None => match read_sep(s, pos, i, ':') {
                None => (acc, pos, false),
                Some(p) => match read_number(s, p, true, 4, true, 0xffff) {
                    None => (acc, pos, false),
                    Some((g, p2)) => read_groups(s, p2, i + 1, limit, acc.push(g as u16)),
                },
            },
        }
    }
}

/// `n` zero groups.
pub open spec fn zero_groups(n: nat) -> Seq<u16> {
    Seq::new(n, |i: int| 0u16)
}

/// The eight groups of an IPv6 address, or `None` when `s` is not one. The
/// whole text must be read.
pub open spec fn parse_ipv6_text(s: Seq<char>) -> Option<Seq<u16>> {
    let (head, p, h4) = read_groups(s, 0, 0, 8, Seq::empty());
    if head.len() == 8 {
        if p == s.len() {
            Some(head)
        } else {
            None
        }
    } else if h4 || !(p + 1 < s.len() && s[p] == ':' && s[p + 1] == ':') {
        None
    } else {
        let (tail, q, _t4) = read_groups(s, p + 2, 0, (8 - (head.len() + 1)) as nat, Seq::empty());
        if q == s.len() {
            Some(head + zero_groups((8 - head.len() - tail.len()) as nat) + tail)
        } else {
            None
        }
    }
}

// ── Writing ─────────────────────────────────────────────────────────────────

/// The lower-case hexadecimal text of `v` without leading zeros.
pub open spec fn hex_group(v: nat) -> Seq<char>
    decreases v,
{
    if v < 16 {
        seq![hex_char(v as u8)]
    } else {
        hex_group(v / 16).push(hex_char((v % 16) as u8))
    }
}

/// Groups in hexadecimal, joined by colons.
pub open spec fn join_groups(g: Seq<u16>) -> Seq<char>
    decreases g.len(),
{
    if g.len() == 0 {
        Seq::empty()
    } else if g.len() == 1 {
        hex_group(g[0] as nat)
    } else {
        join_groups(g.drop_last()) + seq![':'] + hex_group(g.last() as nat)
    }
}

/// The scan for the first longest run of zero groups from index `i`, with
/// the current run and the best so far: the best run's start and length.
pub open spec fn zero_scan(g: Seq<u16>, i: int, cur_start: int, cur_len: int, best_start: int, best_len: int) -> (int, int)
    decreases g.len() - i,
{
    if i >= g.len() || i < 0 {
        (best_start, best_len)
    } else if g[i] == 0 {
        let cs = if cur_len == 0 { i } else { cur_start };
        let cl = cur_len + 1;
        if cl > best_len {
            zero_scan(g, i + 1, cs, cl, cs, cl)
        } else {
            zero_scan(g, i + 1, cs, cl, best_start, best_len)
        }
    } else {
        zero_scan(g, i + 1, 0, 0, best_start, best_len)
    }
}

/// Whether eight groups are an IPv4-mapped address, `::ffff:a.b.c.d`.
pub open spec fn is_ipv4_mapped(g: Seq<u16>) -> bool {
    g[0] == 0 && g[1] == 0 && g[2] == 0 && g[3] == 0 && g[4] == 0 && g[5] == 0xffff
}

/// The text of eight groups.
pub open spec fn ipv6_text(g: Seq<u16>) -> Seq<char> {
    if is_ipv4_mapped(g) {
        seq![':', ':', 'f', 'f', 'f', 'f', ':'] + ipv4_text(
            seq![(g[6] / 256) as u8, (g[6] % 256) as u8, (g[7] / 256) as u8, (g[7] % 256) as u8],
        )
    } else {
        let (start, len) = zero_scan(g, 0, 0, 0, 0, 0);
        if len > 1 {
            join_groups(g.subrange(0, start)) + seq![':', ':'] + join_groups(g.subrange(start + len, 8))
        } else {
            join_groups(g)
        }
    }
}

// ── Reading, executably ─────────────────────────────────────────────────────

/// The value of a digit, as [`digit_of`] says.
fn digit_exec(c: char, hex: bool) -> (r: Option<u32>)
    ensures
        match digit_of(c, hex) {
            Some(d) => r == Some(d as u32),
            None => r is None,
        },
{
    if '0' <= c && c <= '9' {
        Some((c as u32) - ('0' as u32))
    } else if hex && 'a' <= c && c <= 'f' {
        Some((c as u32) - ('a' as u32) + 10)
    } else if hex && 'A' <= c && c <= 'F' {
        Some((c as u32) - ('A' as u32) + 10)
    } else {
        None
    }
}

/// `radix(hex)` to the power `k`.
pub open spec fn radix_pow(hex: bool, k: nat) -> nat
    decreases k,
{
    if k == 0 {
        1
    } else if hex {
        16 * radix_pow(hex, (k - 1) as nat)
    } else {
        10 * radix_pow(hex, (k - 1) as nat)
    }
}

/// `k` digits have a value below `radix^k`.
proof fn lemma_run_value_bound(s: Seq<char>, pos: int, k: nat, hex: bool)
    requires
        forall|j: int| pos <= j < pos + k ==> digit_of(#[trigger] s[j], hex) is Some,
    ensures
        run_value(s, pos, k, hex) < radix_pow(hex, k),
    decreases k,
{
    if k > 0 {
        lemma_run_value_bound(s, pos, (k - 1) as nat, hex);
        let d = digit_of(s[pos + k - 1], hex)->0;
        assert(d < radix(hex));
        let v = run_value(s, pos, (k - 1) as nat, hex);
        let p = radix_pow(hex, (k - 1) as nat);
        if hex {
            assert(v * 16 + d < p * 16) by (nonlinear_arith)
                requires
                    v < p,
                    d < 16,
            ;
        } else {
            assert(v * 10 + d < p * 10) by (nonlinear_arith)
                requires
                    v < p,
                    d < 10,
            ;
        }
    }
}

/// The digits from `pos` on are exactly `run_len` of them.
proof fn lemma_run_digits(s: Seq<char>, pos: int, hex: bool)
    requires
        0 <= pos,
    ensures
        forall|j: int| pos <= j < pos + run_len(s, pos, hex) ==> digit_of(#[trigger] s[j], hex) is Some,
        pos + run_len(s, pos, hex) <= s.len() || run_len(s, pos, hex) == 0,
    decreases s.len() - pos,
{
    if pos < s.len() && digit_of(s[pos], hex) is Some {
        lemma_run_digits(s, pos + 1, hex);
    }
}

/// Reads a number as [`read_number`] says, for the bounds used here.
fn read_number_exec(s: &Vec<char>, pos: usize, hex: bool, max: usize, zero_prefix: bool, bound: u32) -> (r: Option<(u32, usize)>)
    requires
        max <= 4,
        pos <= s@.len(),
    ensures
        match read_number(s@, pos as int, hex, max as nat, zero_prefix, bound as nat) {
            Some((v, p)) => r matches Some((w, q)) && w == v && q == p,
            None => r is None,
        },
{
    let slen = s.len();
    let mut j: usize = pos;
    while j < slen && digit_exec(s[j], hex).is_some()
        invariant
            pos <= j <= slen,
            slen == s@.len(),
            run_len(s@, pos as int, hex) == (j - pos) + run_len(s@, j as int, hex),
        decreases slen - j,
    {
        j = j + 1;
    }
    let k = j - pos;
    proof {
        assert(run_len(s@, j as int, hex) == 0);
        lemma_run_digits(s@, pos as int, hex);
    }
    if k == 0 || k > max {
        return None;
    }
    let mut v: u32 = 0;
    let mut i: usize = 0;
    while i < k
        invariant
            i <= k <= max <= 4,
            pos + k <= s@.len(),
            slen == s@.len(),
            k == run_len(s@, pos as int, hex),
            forall|t: int| pos <= t < pos + k ==> digit_of(#[trigger] s@[t], hex) is Some,
            v == run_value(s@, pos as int, i as nat, hex),
        decreases k - i,
    {
        proof {
            lemma_run_value_bound(s@, pos as int, i as nat, hex);
            reveal_with_fuel(radix_pow, 4);
            if i == 0 {
                assert(radix_pow(hex, 0) == 1);
            } else if i == 1 {
                assert(radix_pow(hex, 1) <= 16);
            } else if i == 2 {
                assert(radix_pow(hex, 2) <= 256);
            } else if hex {
                assert(radix_pow(hex, 3) == 4096);
            } else {
                assert(radix_pow(hex, 3) == 1000);
            }
            assert(v < 4096);
            assert(s@[pos + i] == s@[pos + (i + 1) - 1]);
        }
        let d = digit_exec(s[pos + i], hex);
        let dd = match d {
            Some(x) => x,
            None => 0,
        };
        v = if hex { v * 16 + dd } else { v * 10 + dd };
        i = i + 1;
    }
    if v > bound {
        return None;
    }
    if !zero_prefix && s[pos] == '0' && k > 1 {
        return None;
    }
    Some((v, pos + k))
}

/// The position after the separator before item `i`, as [`read_sep`] says.
fn read_sep_exec(s: &Vec<char>, pos: usize, i: usize, sep: char) -> (r: Option<usize>)
    requires
        pos <= s@.len(),
    ensures
        match read_sep(s@, pos as int, i as nat, sep) {
            Some(p) => r matches Some(q) && q == p && p <= s@.len(),
            None => r is None,
        },
{
    if i == 0 {
        Some(pos)
    } else if pos < s.len() && s[pos] == sep {
        Some(pos + 1)
    } else {
        None
    }
}

/// An IPv4 octet item, as [`read_octet`] says.
fn read_octet_exec(s: &Vec<char>, pos: usize, i: usize) -> (r: Option<(u32, usize)>)
    requires
        pos <= s@.len(),
    ensures
        match read_octet(s@, pos as int, i as nat) {
            Some((v, p)) => r matches Some((w, q)) && w == v && q == p && q <= s@.len() && v <= 255,
            None => r is None,
        },
{
    match read_sep_exec(s, pos, i, '.') {
        None => None,
        Some(p) => {
            proof {
                lemma_run_digits(s@, p as int, false);
            }
            read_number_exec(s, p, false, 3, false, 255)
        },
    }
}

/// A dotted-quad IPv4 address, as [`read_ipv4`] says.
fn read_ipv4_exec(s: &Vec<char>, pos: usize) -> (r: Option<([u8; 4], usize)>)
    requires
        pos <= s@.len(),
    ensures
        match read_ipv4(s@, pos as int) {
            Some((b, p)) => r matches Some((w, q)) && w@ == b && q == p && q <= s@.len(),
            None => r is None,
        },
{
    let (a, p1) = match read_octet_exec(s, pos, 0) {
        Some(x) => x,
        None => {
            return None;
        },
    };
    let (b, p2) = match read_octet_exec(s, p1, 1) {
        Some(x) => x,
        None => {
            return None;
        },
    };
    let (c, p3) = match read_octet_exec(s, p2, 2) {
        Some(x) => x,
        None => {
            return None;
        },
    };
    let (d, p4) = match read_octet_exec(s, p3, 3) {
        Some(x) => x,
        None => {
            return None;
        },
    };
    let out = [a as u8, b as u8, c as u8, d as u8];
    proof {
        assert(out@ =~= seq![a as u8, b as u8, c as u8, d as u8]);
    }
    Some((out, p4))
}

/// Reads groups from `pos`, as [`read_groups`] says from item 0.
fn read_groups_exec(s: &Vec<char>, pos0: usize, limit: usize) -> (r: (Vec<u16>, usize, bool))
    requires
        pos0 <= s@.len(),
        limit <= 8,
    ensures
        (r.0@, r.1 as int, r.2) == read_groups(s@, pos0 as int, 0, limit as nat, Seq::empty()),
        r.1 <= s@.len(),
        r.0@.len() <= limit,
{
    let mut acc: Vec<u16> = Vec::new();
    let mut pos = pos0;
    let mut i: usize = 0;
    loop
        invariant
            i <= limit <= 8,
            pos <= s@.len(),
            acc@.len() == i,
            read_groups(s@, pos as int, i as nat, limit as nat, acc@) == read_groups(
                s@,
                pos0 as int,
                0,
                limit as nat,
                Seq::empty(),
            ),
        decreases limit - i,
    {
        if i >= limit {
            return (acc, pos, false);
        }
        if i + 1 < limit {
            let v4 = match read_sep_exec(s, pos, i, ':') {
                Some(p) => read_ipv4_exec(s, p),
                None => None,
            };
            match v4 {
                Some((b, p)) => {
                    let g1 = (b[0] as u16) * 256 + b[1] as u16;
                    let g2 = (b[2] as u16) * 256 + b[3] as u16;
                    let ghost before = acc@;
                    acc.push(g1);
                    acc.push(g2);
                    proof {
                        assert(acc@ =~= before + ipv4_groups(b@));
                    }
                    return (acc, p, true);
                },
                None => {},
            }
        }
        match read_sep_exec(s, pos, i, ':') {
            None => {
                return (acc, pos, false);
            },
            Some(p) => {
                proof {
                    lemma_run_digits(s@, p as int, true);
                }
                match read_number_exec(s, p, true, 4, true, 0xffff) {
                    None => {
                        return (acc, pos, false);
                    },
                    Some((g, p2)) => {
                        acc.push(g as u16);
                        pos = p2;
                        i = i + 1;
                    },
                }
            },
        }
    }
}

/// The eight groups of an IPv6 address, as [`parse_ipv6_text`] says.
pub fn parse_ipv6(s: &Vec<char>) -> (r: Option<Vec<u16>>)
    ensures
        match parse_ipv6_text(s@) {
            Some(g) => r matches Some(v) && v@ == g,
            None => r is None,
        },
        r matches Some(v) ==> v@.len() == 8,
{
    let (head, p, h4) = read_groups_exec(s, 0, 8);
    if head.len() == 8 {
        if p == s.len() {
            return Some(head);
        } else {
            return None;
        }
    }
    if h4 || !(p < s.len() && p + 1 < s.len() && s[p] == ':' && s[p + 1] == ':') {
        return None;
    }
    let limit = 8 - (head.len() + 1);
    let (tail, q, _t4) = read_groups_exec(s, p + 2, limit);
    if q != s.len() {
        return None;
    }
    let mut out: Vec<u16> = Vec::new();
    let mut k: usize = 0;
    while k < head.len()
        invariant
            k <= head@.len(),
            out@ == head@.subrange(0, k as int),
        decreases head@.len() - k,
    {
        out.push(head[k]);
        k = k + 1;
        proof {
            assert(out@ =~= head@.subrange(0, k as int));
        }
    }
    let zeros = 8 - head.len() - tail.len();
    let mut z: usize = 0;
    while z < zeros
        invariant
            z <= zeros,
            head@.len() <= 8,
            out@ == head@ + zero_groups(z as nat),
        decreases zeros - z,
    {
        out.push(0);
        z = z + 1;
        proof {
            assert(out@ =~= head@ + zero_groups(z as nat));
        }
    }
    let mut t: usize = 0;
    while t < tail.len()
        invariant
            t <= tail@.len(),
            out@ == head@ + zero_groups(zeros as nat) + tail@.subrange(0, t as int),
        decreases tail@.len() - t,
    {
        out.push(tail[t]);
        t = t + 1;
        proof {
            assert(out@ =~= head@ + zero_groups(zeros as nat) + tail@.subrange(0, t as int));
        }
    }
    proof {
        assert(head@.subrange(0, head@.len() as int) =~= head@);
        assert(tail@.subrange(0, tail@.len() as int) =~= tail@);
    }
    Some(out)
}

// ── Writing, executably ─────────────────────────────────────────────────────

/// Appends the hexadecimal text of `v` without leading zeros.
fn append_hex_group(s: &mut String, v: u16)
    ensures
        final(s)@ == old(s)@ + hex_group(v as nat),
    decreases v,
{
    if v >= 16 {
        append_hex_group(s, v / 16);
    }
    let d = (v % 16) as u8;
    s.append(crate::hex::hex_digit(d));
    proof {
        assert(d as nat == (v as nat) % 16);
        if v >= 16 {
            assert(hex_group(v as nat) == hex_group((v / 16) as nat).push(hex_char(((v as nat) % 16) as u8)));
        }
    }
}

/// Appends groups `lo..hi` of `g`, joined by colons.
fn append_groups(s: &mut String, g: &Vec<u16>, lo: usize, hi: usize)
    requires
        lo <= hi <= g@.len(),
    ensures
        final(s)@ == old(s)@ + join_groups(g@.subrange(lo as int, hi as int)),
{
    proof {
        reveal_strlit(":");
    }
    let ghost s0 = s@;
    let mut i: usize = lo;
    while i < hi
        invariant
            lo <= i <= hi <= g@.len(),
            s@ == s0 + join_groups(g@.subrange(lo as int, i as int)),
        decreases hi - i,
    {
        let ghost before = s@;
        if i > lo {
            s.append(":");
            proof {
                reveal_strlit(":");
                assert(s@ =~= before + seq![':']);
            }
        }
        let ghost mid = s@;
        append_hex_group(s, g[i]);
        proof {
            let sub = g@.subrange(lo as int, i + 1);
            assert(sub.drop_last() =~= g@.subrange(lo as int, i as int));
            assert(sub.last() == g@[i as int]);
            if i == lo {
                assert(sub.len() == 1);
                assert(g@.subrange(lo as int, i as int) =~= Seq::<u16>::empty());
                assert(join_groups(sub) == hex_group(sub[0] as nat));
                assert(s@ =~= s0 + join_groups(sub));
            } else {
                assert(sub.len() >= 2);
                assert(join_groups(sub) == join_groups(sub.drop_last()) + seq![':'] + hex_group(sub.last() as nat));
                assert(mid =~= s0 + join_groups(g@.subrange(lo as int, i as int)) + seq![':']);
                assert(s@ =~= mid + hex_group(g@[i as int] as nat));
                assert(s@ =~= s0 + join_groups(sub));
            }
        }
        i = i + 1;
    }
}

/// The first longest run of zero groups: its start and length.
fn longest_zero_run(g: &Vec<u16>) -> (r: (usize, usize))
    requires
        g@.len() == 8,
    ensures
        (r.0 as int, r.1 as int) == zero_scan(g@, 0, 0, 0, 0, 0),
        r.0 + r.1 <= 8,
{
    let mut cs: usize = 0;
    let mut cl: usize = 0;
    let mut bs: usize = 0;
    let mut bl: usize = 0;
    let mut i: usize = 0;
    while i < 8
        invariant
            i <= 8,
            g@.len() == 8,
            cl <= i,
            cl > 0 ==> cs + cl == i,
            bs + bl <= i,
            zero_scan(g@, i as int, cs as int, cl as int, bs as int, bl as int) == zero_scan(g@, 0, 0, 0, 0, 0),
        decreases 8 - i,
    {
        if g[i] == 0 {
            if cl == 0 {
                cs = i;
            }
            cl = cl + 1;
            if cl > bl {
                bs = cs;
                bl = cl;
            }
        } else {
            cs = 0;
            cl = 0;
        }
        i = i + 1;
    }
    (bs, bl)
}

/// The text of eight groups, as `Ipv6Addr`'s `Display` writes it.
pub fn format_ipv6(g: &Vec<u16>) -> (s: String)
    requires
        g@.len() == 8,
    ensures
        s@ == ipv6_text(g@),
{
    proof {
        reveal_strlit("::ffff:");
        reveal_strlit("::");
    }
    if g[0] == 0 && g[1] == 0 && g[2] == 0 && g[3] == 0 && g[4] == 0 && g[5] == 0xffff {
        let v4 = format_ipv4((g[6] / 256) as u8, (g[6] % 256) as u8, (g[7] / 256) as u8, (g[7] % 256) as u8);
        let mut s = String::new();
        s.append("::ffff:");
        s.append(v4.as_str());
        return s;
    }
    let (start, len) = longest_zero_run(g);
    let mut s = String::new();
    if len > 1 {
        append_groups(&mut s, g, 0, start);
        s.append("::");
        append_groups(&mut s, g, start + len, 8);
    } else {
        append_groups(&mut s, g, 0, 8);
        proof {
            assert(g@.subrange(0, 8) =~= g@);
        }
    }
    s
}

/// The four bytes of a dotted-quad IPv4 address as `Ipv4Addr::from_str`
/// reads it: four decimal octets without leading zeros, and nothing else.
pub open spec fn parse_ipv4_std(s: Seq<char>) -> Option<Seq<u8>> {
    match read_ipv4(s, 0) {
        Some((b, p)) => if p == s.len() {
            Some(b)
        } else {
            None
        },
        None => None,
    }
}

/// The four bytes of a dotted-quad IPv4 address, as [`parse_ipv4_std`] says.
pub fn parse_ipv4_strict(s: &Vec<char>) -> (r: Option<[u8; 4]>)
    ensures
        match parse_ipv4_std(s@) {
            Some(b) => r matches Some(w) && w@ == b,
            None => r is None,
        },
{
    match read_ipv4_exec(s, 0) {
        Some((b, p)) => if p == s.len() {
            Some(b)
        } else {
            None
        },
        None => None,
    }
}

} // verus!
