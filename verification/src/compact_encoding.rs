//! Compact binary encoding primitives compatible with the compact-encoding wire format.
//!
//! Every value is written with a three step protocol: `preencode_*` grows the
//! planned size (`end`), `alloc` sizes the buffer, `encode_*` writes at the cursor
//! (`start`). Decoders read from the cursor and never past `end`.
use vstd::prelude::*;
use vstd::arithmetic::div_mod::{lemma_breakdown, lemma_div_denominator};
use crate::ipv6_text::{format_ipv6, ipv6_text, parse_ipv6 as parse_ipv6_groups, parse_ipv6_text};
use crate::text::{
    format_ipv4, ipv4_text, ipv4_written, lemma_leading_parsed_len, leading_parsed, parse_ipv4_text, parse_u8_range,
    parse_u8_text, split_dot_bounds, split_dots, str_chars, str_contains_char,
};

verus! {

/// Errors returned by compact encoding operations.
#[derive(Debug)]
#[non_exhaustive]
pub enum EncodingError {
    /// The buffer did not contain enough bytes.
    OutOfBounds {
        /// The number of bytes needed.
        need: usize,
        /// The number of bytes available.
        have: usize,
    },
    /// The input buffer did not match the expected size.
    IncorrectBufferSize {
        /// The expected buffer length.
        expected: usize,
        /// The actual buffer length.
        got: usize,
    },
    /// The array length exceeds the supported maximum.
    ArrayTooLarge(usize),
    /// The encoded IP family tag was not recognized.
    InvalidIpFamily(u8),
    /// The provided IPv4 address was invalid.
    InvalidIpv4(String),
    /// The provided IPv6 address was invalid.
    InvalidIpv6(String),
}

/// Result type used by compact encoding operations.
pub type Result<T> = core::result::Result<T, EncodingError>;

/// What a parser gives back: the value and the number of bytes it consumed, or the error.
pub type PResult<T> = core::result::Result<(T, nat), EncodingError>;

/// Encoding cursor and backing buffer state.
#[derive(Debug, Clone)]
pub struct State {
    /// The current read or write position.
    pub start: usize,
    /// The allocated end position for pre-encoded data.
    pub end: usize,
    /// The backing byte buffer.
    pub buffer: Vec<u8>,
}

// ── Byte sequence model ─────────────────────────────────────────────────────

/// `256` to the power `n`.
pub open spec fn pow256(n: nat) -> nat
    decreases n,
{
    if n == 0 {
        1
    } else {
        pow256((n - 1) as nat) * 256
    }
}

/// The `n` low bytes of `v`, least significant first.
pub open spec fn le_bytes(v: nat, n: nat) -> Seq<u8>
    decreases n,
{
    if n == 0 {
        Seq::empty()
    } else {
        le_bytes(v, (n - 1) as nat).push(((v / pow256((n - 1) as nat)) % 256) as u8)
    }
}

/// The number whose little-endian bytes are `s`.
pub open spec fn le_value(s: Seq<u8>) -> nat
    decreases s.len(),
{
    if s.len() == 0 {
        0
    } else {
        le_value(s.drop_last()) + (s.last() as nat) * pow256((s.len() - 1) as nat)
    }
}

/// `buf` with `bytes` written over it from position `at`.
pub open spec fn splice(buf: Seq<u8>, at: int, bytes: Seq<u8>) -> Seq<u8> {
    buf.subrange(0, at) + bytes + buf.subrange(at + bytes.len(), buf.len() as int)
}

impl State {
    /// The bytes between the cursor and the end: what a decoder may read.
    pub open spec fn rest(&self) -> Seq<u8> {
        if self.start <= self.end {
            self.buffer@.subrange(self.start as int, self.end as int)
        } else {
            Seq::empty()
        }
    }

    /// Decoders read the buffer below `end` only.
    pub open spec fn readable(&self) -> bool {
        self.end <= self.buffer@.len()
    }

    /// The number of bytes left to read, as the cursor sees it.
    pub open spec fn spec_remaining(&self) -> nat {
        if self.start <= self.end {
            (self.end - self.start) as nat
        } else {
            0
        }
    }
}

/// `new` is `old` with `n` more bytes planned.
pub open spec fn planned(old: State, new: State, n: nat) -> bool {
    &&& new.end == old.end + n
    &&& new.start == old.start
    &&& new.buffer@ == old.buffer@
}

/// `new` is `old` with `bytes` written at the cursor and the cursor moved past them.
pub open spec fn wrote(old: State, new: State, bytes: Seq<u8>) -> bool {
    &&& new.buffer@ == splice(old.buffer@, old.start as int, bytes)
    &&& new.start == old.start + bytes.len()
    &&& new.end == old.end
}

/// A decoder left the buffer and the end alone and, on success, moved the cursor
/// by exactly what the parser consumed.
pub open spec fn read_as<T, V>(old: State, new: State, r: Result<T>, p: PResult<V>, view: spec_fn(T) -> V) -> bool {
    &&& new.buffer@ == old.buffer@
    &&& new.end == old.end
    &&& match r {
        Ok(v) => p matches Ok((w, k)) && w == view(v) && new.start == old.start + k,
        Err(e) => p == Err::<(V, nat), EncodingError>(e),
    }
}

/// The error for a read of `need` bytes where only `have` are left.
pub open spec fn out_of_bounds(need: nat, have: nat) -> EncodingError {
    EncodingError::OutOfBounds { need: need as usize, have: have as usize }
}

/// Reads `n` little-endian bytes as a number.
pub open spec fn parse_le(s: Seq<u8>, n: nat) -> PResult<nat> {
    if s.len() < n {
        Err(out_of_bounds(n, s.len()))
    } else {
        Ok((le_value(s.take(n as int)), n))
    }
}

// ── Lemmas on the byte model ────────────────────────────────────────────────

pub proof fn lemma_pow256_pos(n: nat)
    ensures
        pow256(n) > 0,
    decreases n,
{
    if n > 0 {
        lemma_pow256_pos((n - 1) as nat);
    }
}

pub proof fn lemma_le_bytes_len(v: nat, n: nat)
    ensures
        le_bytes(v, n).len() == n,
    decreases n,
{
    if n > 0 {
        lemma_le_bytes_len(v, (n - 1) as nat);
    }
}

/// Reading back `n` little-endian bytes of `v` gives `v` modulo `256^n`.
pub proof fn lemma_le_value_of_bytes(v: nat, n: nat)
    ensures
        le_value(le_bytes(v, n)) == v % pow256(n),
    decreases n,
{
    lemma_le_bytes_len(v, n);
    if n == 0 {
    } else {
        let m = (n - 1) as nat;
        lemma_le_value_of_bytes(v, m);
        lemma_le_bytes_len(v, m);
        lemma_pow256_pos(m);
        assert(le_bytes(v, n).drop_last() =~= le_bytes(v, m));
        lemma_breakdown(v as int, pow256(m) as int, 256);
        assert(pow256(n) == pow256(m) * 256);
        assert(v % pow256(n) == pow256(m) * ((v / pow256(m)) % 256) + v % pow256(m));
        let b = ((v / pow256(m)) % 256) as u8;
        assert(le_bytes(v, n).last() == b);
        assert(b as nat == (v / pow256(m)) % 256);
        assert((b as nat) * pow256(m) == pow256(m) * (b as nat)) by (nonlinear_arith);
    }
}

/// A little-endian value is below `256^len`.
pub proof fn lemma_le_value_bound(s: Seq<u8>)
    ensures
        le_value(s) < pow256(s.len()),
    decreases s.len(),
{
    if s.len() > 0 {
        let m = (s.len() - 1) as nat;
        lemma_le_value_bound(s.drop_last());
        lemma_pow256_pos(m);
        assert((s.last() as nat) * pow256(m) <= 255 * pow256(m)) by (nonlinear_arith)
            requires
                s.last() <= 255,
        ;
    }
}

/// The bytes of a little-endian value are the value written back.
pub proof fn lemma_le_bytes_of_value(s: Seq<u8>)
    ensures
        le_bytes(le_value(s), s.len()) == s,
    decreases s.len(),
{
    if s.len() > 0 {
        let m = (s.len() - 1) as nat;
        let p = s.drop_last();
        lemma_le_bytes_of_value(p);
        lemma_le_value_bound(p);
        lemma_pow256_pos(m);
        let v = le_value(s);
        let lv = le_value(p);
        let b = s.last() as nat;
        assert(v == lv + b * pow256(m));
        assert((lv + b * pow256(m)) / pow256(m) == b && (lv + b * pow256(m)) % pow256(m) == lv)
            by (nonlinear_arith)
            requires
                lv < pow256(m),
                pow256(m) > 0,
        ;
        assert(lv % pow256(m) == lv) by (nonlinear_arith)
            requires
                lv < pow256(m),
        ;
        lemma_le_bytes_prefix(v, lv, m);
        assert(le_bytes(v, s.len()) =~= s);
    }
}

/// Bytes below position `n` depend on the value modulo `256^n` only.
pub proof fn lemma_le_bytes_prefix(v: nat, w: nat, n: nat)
    requires
        v % pow256(n) == w % pow256(n),
    ensures
        le_bytes(v, n) == le_bytes(w, n),
    decreases n,
{
    if n > 0 {
        let m = (n - 1) as nat;
        lemma_pow256_pos(m);
        lemma_breakdown(v as int, pow256(m) as int, 256);
        lemma_breakdown(w as int, pow256(m) as int, 256);
        assert(pow256(n) == pow256(m) * 256);
        // both residues mod 256^m agree, and so do the bytes at position m
        assert(v % pow256(m) == w % pow256(m) && (v / pow256(m)) % 256 == (w / pow256(m)) % 256)
            by (nonlinear_arith)
            requires
                v % (pow256(m) * 256) == w % (pow256(m) * 256),
                v % (pow256(m) * 256) == pow256(m) * ((v / pow256(m)) % 256) + v % pow256(m),
                w % (pow256(m) * 256) == pow256(m) * ((w / pow256(m)) % 256) + w % pow256(m),
                pow256(m) > 0,
                0 <= v % pow256(m) < pow256(m),
                0 <= w % pow256(m) < pow256(m),
        ;
        lemma_le_bytes_prefix(v, w, m);
    }
}

/// A single byte reads as itself.
pub proof fn lemma_le_value_one(x: u8)
    ensures
        le_value(seq![x]) == x as nat,
{
    let s = seq![x];
    assert(s.drop_last() =~= Seq::<u8>::empty());
    assert(le_value(Seq::<u8>::empty()) == 0);
    assert(pow256(0) == 1);
    assert(le_value(s) == le_value(s.drop_last()) + (s.last() as nat) * pow256(0));
    assert((x as nat) * 1 == x as nat);
}

// ── Executable byte access ──────────────────────────────────────────────────

/// Writes the `n` low bytes of `v`, least significant first, at the cursor.
fn write_le(state: &mut State, v: u64, n: usize)
    requires
        n <= 8,
        old(state).start + n <= old(state).buffer@.len(),
    ensures
        wrote(*old(state), *final(state), le_bytes(v as nat, n as nat)),
{
    let ghost s0 = state.buffer@;
    let start = state.start;
    let mut x: u64 = v;
    let mut i: usize = 0;
    proof {
        assert(pow256(0) == 1);
        assert(state.buffer@ =~= splice(s0, start as int, le_bytes(v as nat, 0)));
        assert(s0.len() == state.buffer.len());
    }
    while i < n
        invariant
            i <= n <= 8,
            start + n <= s0.len() <= usize::MAX,
            state.start == start,
            state.end == old(state).end,
            state.buffer@.len() == s0.len(),
            x == (v as nat) / pow256(i as nat),
            state.buffer@ =~= splice(s0, start as int, le_bytes(v as nat, i as nat)),
        decreases n - i,
    {
        proof {
            lemma_le_bytes_len(v as nat, i as nat);
            lemma_le_bytes_len(v as nat, (i + 1) as nat);
            lemma_pow256_pos(i as nat);
            lemma_div_denominator(v as int, pow256(i as nat) as int, 256);
        }
        let b = (x % 256) as u8;
        state.buffer.set(start + i, b);
        x = x / 256;
        i = i + 1;
        proof {
            assert(pow256(i as nat) == pow256((i - 1) as nat) * 256);
            assert(le_bytes(v as nat, i as nat) == le_bytes(v as nat, (i - 1) as nat).push(b));
            assert(state.buffer@ =~= splice(s0, start as int, le_bytes(v as nat, i as nat)));
        }
    }
    state.start = start + n;
    proof {
        lemma_le_bytes_len(v as nat, n as nat);
    }
}

/// Reads `n` little-endian bytes at the cursor (the caller has checked they are there).
fn read_le(state: &mut State, n: usize) -> (v: u64)
    requires
        1 <= n <= 8,
        old(state).start + n <= old(state).end,
        old(state).readable(),
    ensures
        v as nat == le_value(old(state).rest().take(n as int)),
        final(state).start == old(state).start + n,
        final(state).end == old(state).end,
        final(state).buffer@ == old(state).buffer@,
{
    let ghost bytes = state.rest().take(n as int);
    let start = state.start;
    let mut acc: u64 = 0;
    let mut p: u64 = 1;
    let mut i: usize = 0;
    while i < n
        invariant
            i <= n <= 8,
            start + n <= state.end <= state.buffer@.len(),
            state.start == start,
            bytes == state.buffer@.subrange(start as int, start + n),
            i < n ==> p as nat == pow256(i as nat),
            acc as nat == le_value(bytes.take(i as int)),
            (acc as nat) < pow256(i as nat),
        decreases n - i,
    {
        let b = state.buffer[start + i];
        proof {
            assert(bytes.take(i + 1).drop_last() =~= bytes.take(i as int));
            assert(bytes.take(i + 1).last() == b);
            assert(pow256((i + 1) as nat) == pow256(i as nat) * 256);
            lemma_pow256_bound(i as nat);
            assert(acc + (b as nat) * (p as nat) < pow256((i + 1) as nat)) by (nonlinear_arith)
                requires
                    acc < p,
                    b <= 255,
                    pow256((i + 1) as nat) == (p as nat) * 256,
            ;
        }
        acc = acc + (b as u64) * p;
        if i + 1 < n {
            proof {
                lemma_pow256_bound((i + 1) as nat);
            }
            p = p * 256;
        }
        i = i + 1;
    }
    state.start = start + n;
    proof {
        assert(bytes.take(n as int) =~= bytes);
    }
    acc
}

/// `256^n` fits in a `u64` for `n < 8`.
proof fn lemma_pow256_bound(n: nat)
    requires
        n <= 8,
    ensures
        pow256(n) <= 0x1_0000_0000_0000_0000,
        n < 8 ==> pow256(n) * 256 <= 0x1_0000_0000_0000_0000,
{
    reveal_with_fuel(pow256, 9);
}

// ── Composition of writes and reads ─────────────────────────────────────────

/// What follows a prefix, once the prefix is skipped.
pub proof fn lemma_skip_append(x: Seq<u8>, y: Seq<u8>)
    ensures
        (x + y).skip(x.len() as int) == y,
{
    assert((x + y).skip(x.len() as int) =~= y);
}

/// Skipping twice is skipping the sum.
pub proof fn lemma_skip_skip(s: Seq<u8>, i: nat, j: nat)
    requires
        i + j <= s.len(),
    ensures
        s.skip(i as int).skip(j as int) == s.skip((i + j) as int),
{
    assert(s.skip(i as int).skip(j as int) =~= s.skip((i + j) as int));
}

/// Three pieces and a rest, grouped from the right.
pub proof fn lemma_assoc3(a: Seq<u8>, b: Seq<u8>, c: Seq<u8>, r: Seq<u8>)
    ensures
        a + b + c + r == a + (b + (c + r)),
{
    assert(a + b + c + r =~= a + (b + (c + r)));
}

/// Four pieces and a rest, grouped from the right.
pub proof fn lemma_assoc4(a: Seq<u8>, b: Seq<u8>, c: Seq<u8>, d: Seq<u8>, r: Seq<u8>)
    ensures
        a + b + c + d + r == a + (b + (c + (d + r))),
{
    assert(a + b + c + d + r =~= a + (b + (c + (d + r))));
}

/// Five pieces and a rest, grouped from the right.
pub proof fn lemma_assoc5(a: Seq<u8>, b: Seq<u8>, c: Seq<u8>, d: Seq<u8>, e: Seq<u8>, r: Seq<u8>)
    ensures
        a + b + c + d + e + r == a + (b + (c + (d + (e + r)))),
{
    assert(a + b + c + d + e + r =~= a + (b + (c + (d + (e + r)))));
}

/// Two writes in a row are one write of the concatenation.
pub proof fn lemma_wrote_trans(a: State, b: State, c: State, x: Seq<u8>, y: Seq<u8>)
    requires
        wrote(a, b, x),
        wrote(b, c, y),
        a.start + x.len() + y.len() <= a.buffer@.len(),
    ensures
        wrote(a, c, x + y),
{
    assert(c.buffer@ =~= splice(a.buffer@, a.start as int, x + y));
}

/// Writing nothing leaves the state as it was.
pub proof fn lemma_wrote_nothing(a: State)
    requires
        a.start <= a.buffer@.len(),
    ensures
        wrote(a, a, Seq::empty()),
{
    assert(a.buffer@ =~= splice(a.buffer@, a.start as int, Seq::empty()));
}

/// After a read of `k` bytes the rest is what followed them.
pub proof fn lemma_rest_skip(a: State, b: State, k: nat)
    requires
        a.readable(),
        b.buffer@ == a.buffer@,
        b.end == a.end,
        b.start == a.start + k,
        k <= a.rest().len(),
    ensures
        b.rest() == a.rest().skip(k as int),
        b.readable(),
{
    assert(b.rest() =~= a.rest().skip(k as int));
}

// ── State ───────────────────────────────────────────────────────────────────

impl State {
    /// Creates a new empty state.
    pub fn new() -> (s: Self)
        ensures
            s.start == 0,
            s.end == 0,
            s.buffer@ == Seq::<u8>::empty(),
    {
        State { start: 0, end: 0, buffer: Vec::new() }
    }

    /// Creates a state that reads `buffer` from its first byte to its last.
    pub fn from_buffer(buffer: &[u8]) -> (s: Self)
        ensures
            s.start == 0,
            s.end == buffer@.len(),
            s.buffer@ == buffer@,
    {
        State { start: 0, end: buffer.len(), buffer: vstd::slice::slice_to_vec(buffer) }
    }

    /// Grows the buffer with zero bytes up to the planned end.
    pub fn allocate(&mut self)
        ensures
            final(self).start == old(self).start,
            final(self).end == old(self).end,
            old(self).buffer@.len() < old(self).end ==> final(self).buffer@ == old(self).buffer@
                + Seq::new((old(self).end - old(self).buffer@.len()) as nat, |i: int| 0u8),
            old(self).buffer@.len() >= old(self).end ==> final(self).buffer@ == old(self).buffer@,
    {
        let ghost b0 = self.buffer@;
        let end = self.end;
        while self.buffer.len() < end
            invariant
                self.end == end,
                self.start == old(self).start,
                b0 == old(self).buffer@,
                b0.len() <= self.buffer@.len(),
                b0.len() < end ==> self.buffer@.len() <= end,
                b0.len() >= end ==> self.buffer@.len() == b0.len(),
                self.buffer@ =~= b0 + Seq::new((self.buffer@.len() - b0.len()) as nat, |i: int| 0u8),
            decreases end - self.buffer@.len(),
        {
            self.buffer.push(0);
        }
    }

    fn remaining(&self) -> (n: usize)
        ensures
            n == self.spec_remaining(),
    {
        self.end.saturating_sub(self.start)
    }

    fn check_remaining(&self, n: usize) -> (r: Result<()>)
        ensures
            r is Ok <==> n <= self.spec_remaining(),
            r matches Err(e) ==> e == out_of_bounds(n as nat, self.spec_remaining()),
    {
        let have = self.remaining();
        if have < n {
            return Err(EncodingError::OutOfBounds { need: n, have });
        }
        Ok(())
    }
}

impl Default for State {
    fn default() -> (s: Self)
        ensures
            s.start == 0,
            s.end == 0,
            s.buffer@ == Seq::<u8>::empty(),
    {
        Self::new()
    }
}

/// Reads `n` little-endian bytes, failing when fewer than `n` are left.
fn decode_le(state: &mut State, n: usize) -> (r: Result<u64>)
    requires
        1 <= n <= 8,
        old(state).readable(),
    ensures
        read_as(*old(state), *final(state), r, parse_le(old(state).rest(), n as nat), |v: u64| v as nat),
        r matches Ok(v) ==> (v as nat) < pow256(n as nat),
{
    state.check_remaining(n)?;
    let ghost s = state.rest();
    let v = read_le(state, n);
    proof {
        lemma_le_value_bound(s.take(n as int));
    }
    Ok(v)
}

// ── Fixed-width unsigned integers ───────────────────────────────────────────

/// Pre-encodes a uint8 value, advancing the state cursor.
pub fn preencode_uint8(state: &mut State, _val: u8)
    requires
        old(state).end + 1 <= usize::MAX,
    ensures
        planned(*old(state), *final(state), 1),
{
    state.end = state.end + 1;
}

/// Encodes a uint8 value into the state buffer.
pub fn encode_uint8(state: &mut State, val: u8)
    requires
        old(state).start + 1 <= old(state).buffer@.len(),
    ensures
        wrote(*old(state), *final(state), seq![val]),
{
    let ghost b = state.buffer@;
    let i = state.start;
    let _len = state.buffer.len();
    state.buffer.set(i, val);
    state.start = i + 1;
    proof {
        assert(state.buffer@ =~= splice(b, i as int, seq![val]));
    }
}

/// Decodes a uint8 value from the state buffer.
pub fn decode_uint8(state: &mut State) -> (r: Result<u8>)
    requires
        old(state).readable(),
    ensures
        read_as(*old(state), *final(state), r, parse_le(old(state).rest(), 1), |v: u8| v as nat),
{
    let v = decode_le(state, 1)?;
    proof {
        reveal_with_fuel(pow256, 2);
    }
    Ok(v as u8)
}

/// Pre-encodes a uint16 value, advancing the state cursor.
pub fn preencode_uint16(state: &mut State, _val: u16)
    requires
        old(state).end + 2 <= usize::MAX,
    ensures
        planned(*old(state), *final(state), 2),
{
    state.end = state.end + 2;
}

/// Encodes a uint16 value (little endian) into the state buffer.
pub fn encode_uint16(state: &mut State, val: u16)
    requires
        old(state).start + 2 <= old(state).buffer@.len(),
    ensures
        wrote(*old(state), *final(state), le_bytes(val as nat, 2)),
{
    write_le(state, val as u64, 2);
}

/// Decodes a uint16 value (little endian) from the state buffer.
pub fn decode_uint16(state: &mut State) -> (r: Result<u16>)
    requires
        old(state).readable(),
    ensures
        read_as(*old(state), *final(state), r, parse_le(old(state).rest(), 2), |v: u16| v as nat),
{
    let v = decode_le(state, 2)?;
    proof {
        reveal_with_fuel(pow256, 3);
    }
    Ok(v as u16)
}

/// Pre-encodes a uint24 value, advancing the state cursor.
pub fn preencode_uint24(state: &mut State, _val: u32)
    requires
        old(state).end + 3 <= usize::MAX,
    ensures
        planned(*old(state), *final(state), 3),
{
    state.end = state.end + 3;
}

/// Encodes the three low bytes of a value (little endian) into the state buffer.
pub fn encode_uint24(state: &mut State, val: u32)
    requires
        old(state).start + 3 <= old(state).buffer@.len(),
    ensures
        wrote(*old(state), *final(state), le_bytes(val as nat, 3)),
{
    write_le(state, val as u64, 3);
}

/// Decodes a uint24 value (little endian) from the state buffer.
pub fn decode_uint24(state: &mut State) -> (r: Result<u32>)
    requires
        old(state).readable(),
    ensures
        read_as(*old(state), *final(state), r, parse_le(old(state).rest(), 3), |v: u32| v as nat),
{
    let v = decode_le(state, 3)?;
    proof {
        reveal_with_fuel(pow256, 4);
    }
    Ok(v as u32)
}

/// Pre-encodes a uint32 value, advancing the state cursor.
pub fn preencode_uint32(state: &mut State, _val: u32)
    requires
        old(state).end + 4 <= usize::MAX,
    ensures
        planned(*old(state), *final(state), 4),
{
    state.end = state.end + 4;
}

/// Encodes a uint32 value (little endian) into the state buffer.
pub fn encode_uint32(state: &mut State, val: u32)
    requires
        old(state).start + 4 <= old(state).buffer@.len(),
    ensures
        wrote(*old(state), *final(state), le_bytes(val as nat, 4)),
{
    write_le(state, val as u64, 4);
}

/// Decodes a uint32 value (little endian) from the state buffer.
pub fn decode_uint32(state: &mut State) -> (r: Result<u32>)
    requires
        old(state).readable(),
    ensures
        read_as(*old(state), *final(state), r, parse_le(old(state).rest(), 4), |v: u32| v as nat),
{
    let v = decode_le(state, 4)?;
    proof {
        reveal_with_fuel(pow256, 5);
    }
    Ok(v as u32)
}

/// Pre-encodes a uint40 value, advancing the state cursor.
pub fn preencode_uint40(state: &mut State, _val: u64)
    requires
        old(state).end + 5 <= usize::MAX,
    ensures
        planned(*old(state), *final(state), 5),
{
    state.end = state.end + 5;
}

/// Encodes the five low bytes of a value (little endian) into the state buffer.
pub fn encode_uint40(state: &mut State, val: u64)
    requires
        old(state).start + 5 <= old(state).buffer@.len(),
    ensures
        wrote(*old(state), *final(state), le_bytes(val as nat, 5)),
{
    write_le(state, val, 5);
}

/// Decodes a uint40 value (little endian) from the state buffer.
pub fn decode_uint40(state: &mut State) -> (r: Result<u64>)
    requires
        old(state).readable(),
    ensures
        read_as(*old(state), *final(state), r, parse_le(old(state).rest(), 5), |v: u64| v as nat),
{
    decode_le(state, 5)
}

/// Pre-encodes a uint48 value, advancing the state cursor.
pub fn preencode_uint48(state: &mut State, _val: u64)
    requires
        old(state).end + 6 <= usize::MAX,
    ensures
        planned(*old(state), *final(state), 6),
{
    state.end = state.end + 6;
}

/// Encodes the six low bytes of a value (little endian) into the state buffer.
pub fn encode_uint48(state: &mut State, val: u64)
    requires
        old(state).start + 6 <= old(state).buffer@.len(),
    ensures
        wrote(*old(state), *final(state), le_bytes(val as nat, 6)),
{
    write_le(state, val, 6);
}

/// Decodes a uint48 value (little endian) from the state buffer.
pub fn decode_uint48(state: &mut State) -> (r: Result<u64>)
    requires
        old(state).readable(),
    ensures
        read_as(*old(state), *final(state), r, parse_le(old(state).rest(), 6), |v: u64| v as nat),
{
    decode_le(state, 6)
}

/// Pre-encodes a uint56 value, advancing the state cursor.
pub fn preencode_uint56(state: &mut State, _val: u64)
    requires
        old(state).end + 7 <= usize::MAX,
    ensures
        planned(*old(state), *final(state), 7),
{
    state.end = state.end + 7;
}

/// Encodes the seven low bytes of a value (little endian) into the state buffer.
pub fn encode_uint56(state: &mut State, val: u64)
    requires
        old(state).start + 7 <= old(state).buffer@.len(),
    ensures
        wrote(*old(state), *final(state), le_bytes(val as nat, 7)),
{
    write_le(state, val, 7);
}

/// Decodes a uint56 value (little endian) from the state buffer.
pub fn decode_uint56(state: &mut State) -> (r: Result<u64>)
    requires
        old(state).readable(),
    ensures
        read_as(*old(state), *final(state), r, parse_le(old(state).rest(), 7), |v: u64| v as nat),
{
    decode_le(state, 7)
}

/// Pre-encodes a uint64 value, advancing the state cursor.
pub fn preencode_uint64(state: &mut State, _val: u64)
    requires
        old(state).end + 8 <= usize::MAX,
    ensures
        planned(*old(state), *final(state), 8),
{
    state.end = state.end + 8;
}

/// Encodes a uint64 value (little endian) into the state buffer.
pub fn encode_uint64(state: &mut State, val: u64)
    requires
        old(state).start + 8 <= old(state).buffer@.len(),
    ensures
        wrote(*old(state), *final(state), le_bytes(val as nat, 8)),
{
    write_le(state, val, 8);
}

/// Decodes a uint64 value (little endian) from the state buffer.
pub fn decode_uint64(state: &mut State) -> (r: Result<u64>)
    requires
        old(state).readable(),
    ensures
        read_as(*old(state), *final(state), r, parse_le(old(state).rest(), 8), |v: u64| v as nat),
{
    decode_le(state, 8)
}


// ── Variable-length unsigned integers ───────────────────────────────────────

/// The compact encoding of `n`: one byte up to `0xfc`, otherwise a marker byte
/// (`0xfd`, `0xfe`, `0xff`) followed by 2, 4 or 8 little-endian bytes.
pub open spec fn enc_uint(n: u64) -> Seq<u8> {
    if n <= 0xfc {
        seq![n as u8]
    } else if n <= 0xffff {
        seq![0xfdu8] + le_bytes(n as nat, 2)
    } else if n <= 0xffff_ffff {
        seq![0xfeu8] + le_bytes(n as nat, 4)
    } else {
        seq![0xffu8] + le_bytes(n as nat, 8)
    }
}

/// The length of [`enc_uint`].
pub open spec fn uint_size(n: u64) -> nat {
    if n <= 0xfc {
        1
    } else if n <= 0xffff {
        3
    } else if n <= 0xffff_ffff {
        5
    } else {
        9
    }
}

/// Reads a compact unsigned integer.
pub open spec fn parse_uint(s: Seq<u8>) -> PResult<u64> {
    if s.len() < 1 {
        Err(out_of_bounds(1, 0))
    } else if s[0] <= 0xfc {
        Ok((s[0] as u64, 1))
    } else {
        let n: nat = if s[0] == 0xfd {
            2
        } else if s[0] == 0xfe {
            4
        } else {
            8
        };
        match parse_le(s.drop_first(), n) {
            Ok((v, k)) => Ok((v as u64, k + 1)),
            Err(e) => Err(e),
        }
    }
}

/// The compact encoding of `n` has [`uint_size`] bytes and reads back as `n`,
/// whatever follows it.
pub proof fn lemma_uint_roundtrip(n: u64, rest: Seq<u8>)
    ensures
        enc_uint(n).len() == uint_size(n),
        parse_uint(enc_uint(n) + rest) == Ok::<(u64, nat), EncodingError>((n, uint_size(n))),
{
    reveal_with_fuel(pow256, 9);
    let s = enc_uint(n) + rest;
    if n > 0xfc {
        let k: nat = if n <= 0xffff {
            2
        } else if n <= 0xffff_ffff {
            4
        } else {
            8
        };
        lemma_le_bytes_len(n as nat, k);
        lemma_le_value_of_bytes(n as nat, k);
        assert(s.drop_first().take(k as int) =~= le_bytes(n as nat, k));
        assert((n as nat) < pow256(k));
        vstd::arithmetic::div_mod::lemma_small_mod(n as nat, pow256(k));
        assert(s[0] == enc_uint(n)[0]);
        assert(parse_le(s.drop_first(), k) == Ok::<(nat, nat), EncodingError>((n as nat, k)));
    }
}

/// Pre-encodes a uint value, advancing the state cursor.
pub fn preencode_uint(state: &mut State, n: u64)
    requires
        old(state).end + uint_size(n) <= usize::MAX,
    ensures
        planned(*old(state), *final(state), uint_size(n)),
{
    if n <= 0xfc {
        state.end = state.end + 1;
    } else if n <= 0xffff {
        state.end = state.end + 3;
    } else if n <= 0xffffffff {
        state.end = state.end + 5;
    } else {
        state.end = state.end + 9;
    }
}

/// Encodes a uint value into the state buffer.
pub fn encode_uint(state: &mut State, n: u64)
    requires
        old(state).start + uint_size(n) <= old(state).buffer@.len(),
    ensures
        wrote(*old(state), *final(state), enc_uint(n)),
{
    let ghost s0 = *state;
    if n <= 0xfc {
        encode_uint8(state, n as u8);
    } else {
        let marker: u8 = if n <= 0xffff {
            0xfd
        } else if n <= 0xffffffff {
            0xfe
        } else {
            0xff
        };
        let width: usize = if n <= 0xffff {
            2
        } else if n <= 0xffffffff {
            4
        } else {
            8
        };
        encode_uint8(state, marker);
        let ghost s1 = *state;
        write_le(state, n, width);
        proof {
            lemma_le_bytes_len(n as nat, width as nat);
            lemma_wrote_trans(s0, s1, *state, seq![marker], le_bytes(n as nat, width as nat));
        }
    }
}

/// Decodes a uint value from the state buffer.
pub fn decode_uint(state: &mut State) -> (r: Result<u64>)
    requires
        old(state).readable(),
    ensures
        read_as(*old(state), *final(state), r, parse_uint(old(state).rest()), |v: u64| v),
{
    let ghost s0 = *state;
    let a = decode_uint8(state)?;
    proof {
        reveal_with_fuel(pow256, 2);
        lemma_rest_skip(s0, *state, 1);
        assert(s0.rest().take(1) =~= seq![s0.rest()[0]]);
        lemma_le_value_one(s0.rest()[0]);
        assert(s0.rest().skip(1) =~= s0.rest().drop_first());
    }
    if a <= 0xfc {
        return Ok(a as u64);
    }
    if a == 0xfd {
        return Ok(decode_uint16(state)? as u64);
    }
    if a == 0xfe {
        return Ok(decode_uint32(state)? as u64);
    }
    decode_uint64(state)
}

// ── Signed integers ─────────────────────────────────────────────────────────

/// ZigZag mapping of a signed integer onto the naturals: `0, -1, 1, -2, ...`
/// become `0, 1, 2, 3, ...`.
pub open spec fn zigzag(n: int) -> int {
    if n >= 0 {
        2 * n
    } else {
        -2 * n - 1
    }
}

/// Inverse of [`zigzag`].
pub open spec fn unzigzag(u: int) -> int {
    if u % 2 == 0 {
        u / 2
    } else {
        -(u / 2) - 1
    }
}

/// ZigZag is undone by its inverse.
pub proof fn lemma_zigzag_inverse(n: int)
    ensures
        unzigzag(zigzag(n)) == n,
        zigzag(n) >= 0,
{
}

/// Maps a signed integer to its ZigZag code.
pub fn zigzag_encode(n: i64) -> (u: u64)
    ensures
        u as int == zigzag(n as int),
{
    if n >= 0 {
        (n as u64) * 2
    } else {
        ((-(n + 1)) as u64) * 2 + 1
    }
}

/// Maps a ZigZag code back to its signed integer.
pub fn zigzag_decode(n: u64) -> (v: i64)
    ensures
        v as int == unzigzag(n as int),
{
    if n % 2 == 0 {
        (n / 2) as i64
    } else {
        -((n / 2) as i64) - 1
    }
}

/// Pre-encodes an int value, advancing the state cursor.
pub fn preencode_int(state: &mut State, n: i64)
    requires
        old(state).end + uint_size(zigzag(n as int) as u64) <= usize::MAX,
    ensures
        planned(*old(state), *final(state), uint_size(zigzag(n as int) as u64)),
{
    preencode_uint(state, zigzag_encode(n));
}

/// Encodes an int value (ZigZag, then compact uint) into the state buffer.
pub fn encode_int(state: &mut State, n: i64)
    requires
        old(state).start + uint_size(zigzag(n as int) as u64) <= old(state).buffer@.len(),
    ensures
        wrote(*old(state), *final(state), enc_uint(zigzag(n as int) as u64)),
{
    encode_uint(state, zigzag_encode(n));
}

/// Decodes an int value from the state buffer.
pub fn decode_int(state: &mut State) -> (r: Result<i64>)
    requires
        old(state).readable(),
    ensures
        read_as(
            *old(state),
            *final(state),
            r,
            parse_uint(old(state).rest()),
            |v: i64| zigzag(v as int) as u64,
        ),
{
    let u = decode_uint(state)?;
    let v = zigzag_decode(u);
    Ok(v)
}

/// Pre-encodes an int8 value, advancing the state cursor.
pub fn preencode_int8(state: &mut State, _val: i8)
    requires
        old(state).end + 1 <= usize::MAX,
    ensures
        planned(*old(state), *final(state), 1),
{
    state.end = state.end + 1;
}

/// Encodes an int8 value (ZigZag in one byte) into the state buffer.
pub fn encode_int8(state: &mut State, val: i8)
    requires
        old(state).start + 1 <= old(state).buffer@.len(),
    ensures
        wrote(*old(state), *final(state), le_bytes(zigzag(val as int) as nat, 1)),
{
    let z = zigzag_encode(val as i64);
    write_le(state, z, 1);
}

/// Decodes an int8 value from the state buffer.
pub fn decode_int8(state: &mut State) -> (r: Result<i8>)
    requires
        old(state).readable(),
    ensures
        read_as(*old(state), *final(state), r, parse_le(old(state).rest(), 1), |v: i8| zigzag(v as int) as nat),
{
    let u = decode_le(state, 1)?;
    proof {
        reveal_with_fuel(pow256, 2);
    }
    Ok(zigzag_decode(u) as i8)
}

/// Pre-encodes an int16 value, advancing the state cursor.
pub fn preencode_int16(state: &mut State, _val: i16)
    requires
        old(state).end + 2 <= usize::MAX,
    ensures
        planned(*old(state), *final(state), 2),
{
    state.end = state.end + 2;
}

/// Encodes an int16 value (ZigZag in two bytes) into the state buffer.
pub fn encode_int16(state: &mut State, val: i16)
    requires
        old(state).start + 2 <= old(state).buffer@.len(),
    ensures
        wrote(*old(state), *final(state), le_bytes(zigzag(val as int) as nat, 2)),
{
    let z = zigzag_encode(val as i64);
    write_le(state, z, 2);
}

/// Decodes an int16 value from the state buffer.
pub fn decode_int16(state: &mut State) -> (r: Result<i16>)
    requires
        old(state).readable(),
    ensures
        read_as(*old(state), *final(state), r, parse_le(old(state).rest(), 2), |v: i16| zigzag(v as int) as nat),
{
    let u = decode_le(state, 2)?;
    proof {
        reveal_with_fuel(pow256, 3);
    }
    Ok(zigzag_decode(u) as i16)
}

/// Pre-encodes an int32 value, advancing the state cursor.
pub fn preencode_int32(state: &mut State, _val: i32)
    requires
        old(state).end + 4 <= usize::MAX,
    ensures
        planned(*old(state), *final(state), 4),
{
    state.end = state.end + 4;
}

/// Encodes an int32 value (ZigZag in four bytes) into the state buffer.
pub fn encode_int32(state: &mut State, val: i32)
    requires
        old(state).start + 4 <= old(state).buffer@.len(),
    ensures
        wrote(*old(state), *final(state), le_bytes(zigzag(val as int) as nat, 4)),
{
    let z = zigzag_encode(val as i64);
    write_le(state, z, 4);
}

/// Decodes an int32 value from the state buffer.
pub fn decode_int32(state: &mut State) -> (r: Result<i32>)
    requires
        old(state).readable(),
    ensures
        read_as(*old(state), *final(state), r, parse_le(old(state).rest(), 4), |v: i32| zigzag(v as int) as nat),
{
    let u = decode_le(state, 4)?;
    proof {
        reveal_with_fuel(pow256, 5);
    }
    Ok(zigzag_decode(u) as i32)
}

/// Pre-encodes an int64 value, advancing the state cursor.
pub fn preencode_int64(state: &mut State, _val: i64)
    requires
        old(state).end + 8 <= usize::MAX,
    ensures
        planned(*old(state), *final(state), 8),
{
    state.end = state.end + 8;
}

/// Encodes an int64 value (ZigZag in eight bytes) into the state buffer.
pub fn encode_int64(state: &mut State, val: i64)
    requires
        old(state).start + 8 <= old(state).buffer@.len(),
    ensures
        wrote(*old(state), *final(state), le_bytes(zigzag(val as int) as nat, 8)),
{
    let z = zigzag_encode(val);
    write_le(state, z, 8);
}

/// Decodes an int64 value from the state buffer.
pub fn decode_int64(state: &mut State) -> (r: Result<i64>)
    requires
        old(state).readable(),
    ensures
        read_as(*old(state), *final(state), r, parse_le(old(state).rest(), 8), |v: i64| zigzag(v as int) as nat),
{
    let u = decode_le(state, 8)?;
    Ok(zigzag_decode(u))
}

// ── Booleans ────────────────────────────────────────────────────────────────

/// Pre-encodes a bool value, advancing the state cursor.
pub fn preencode_bool(state: &mut State, _val: bool)
    requires
        old(state).end + 1 <= usize::MAX,
    ensures
        planned(*old(state), *final(state), 1),
{
    state.end = state.end + 1;
}

/// Encodes a bool value as one byte, `1` or `0`.
pub fn encode_bool(state: &mut State, val: bool)
    requires
        old(state).start + 1 <= old(state).buffer@.len(),
    ensures
        wrote(*old(state), *final(state), seq![if val { 1u8 } else { 0u8 }]),
{
    encode_uint8(state, if val { 1 } else { 0 });
}

/// Reads a bool: any non-zero byte is `true`.
pub open spec fn parse_bool(s: Seq<u8>) -> PResult<bool> {
    match parse_le(s, 1) {
        Ok((b, k)) => Ok((b != 0, k)),
        Err(e) => Err(e),
    }
}

/// Decodes a bool value: any non-zero byte is `true`.
pub fn decode_bool(state: &mut State) -> (r: Result<bool>)
    requires
        old(state).readable(),
    ensures
        read_as(*old(state), *final(state), r, parse_bool(old(state).rest()), |v: bool| v),
{
    let v = decode_uint8(state)?;
    Ok(v != 0)
}

// ── Raw bytes ───────────────────────────────────────────────────────────────

/// Copies `bytes` to the cursor and moves the cursor past them.
pub(crate) fn write_bytes(state: &mut State, bytes: &[u8])
    requires
        old(state).start + bytes@.len() <= old(state).buffer@.len(),
    ensures
        wrote(*old(state), *final(state), bytes@),
{
    let ghost s0 = state.buffer@;
    let start = state.start;
    let n = bytes.len();
    let mut i: usize = 0;
    proof {
        assert(state.buffer@ =~= splice(s0, start as int, bytes@.take(0)));
        assert(s0.len() == state.buffer.len());
    }
    while i < n
        invariant
            i <= n == bytes@.len(),
            start + n <= s0.len() <= usize::MAX,
            state.start == start,
            state.end == old(state).end,
            state.buffer@.len() == s0.len(),
            state.buffer@ =~= splice(s0, start as int, bytes@.take(i as int)),
        decreases n - i,
    {
        state.buffer.set(start + i, bytes[i]);
        i = i + 1;
        proof {
            assert(state.buffer@ =~= splice(s0, start as int, bytes@.take(i as int)));
        }
    }
    state.start = start + n;
    proof {
        assert(bytes@.take(n as int) =~= bytes@);
    }
}

/// Copies `n` bytes from the cursor (the caller has checked they are there).
pub(crate) fn read_bytes(state: &mut State, n: usize) -> (v: Vec<u8>)
    requires
        old(state).start + n <= old(state).end || (n == 0 && old(state).start <= old(state).buffer@.len()),
        old(state).readable(),
    ensures
        v@ == old(state).rest().take(n as int),
        final(state).start == old(state).start + n,
        final(state).end == old(state).end,
        final(state).buffer@ == old(state).buffer@,
{
    let ghost want = state.rest().take(n as int);
    let start = state.start;
    let _len = state.buffer.len();
    let mut v: Vec<u8> = Vec::new();
    let mut i: usize = 0;
    while i < n
        invariant
            i <= n,
            start + n <= state.buffer@.len() <= usize::MAX,
            state.end <= state.buffer@.len(),
            state.start == start,
            n > 0 ==> want == state.buffer@.subrange(start as int, start + n),
            n == 0 ==> want.len() == 0,
            v@ =~= want.take(i as int),
        decreases n - i,
    {
        v.push(state.buffer[start + i]);
        i = i + 1;
    }
    state.start = start + n;
    v
}

// ── Buffers ─────────────────────────────────────────────────────────────────

/// The encoding of an optional buffer: its length as a compact uint and its
/// bytes, or a single zero byte when absent.
pub open spec fn enc_buffer(b: Option<Seq<u8>>) -> Seq<u8> {
    match b {
        Some(b) => enc_uint(b.len() as u64) + b,
        None => seq![0u8],
    }
}

/// The length of [`enc_buffer`].
pub open spec fn buffer_size(b: Option<Seq<u8>>) -> nat {
    match b {
        Some(b) => uint_size(b.len() as u64) + b.len(),
        None => 1,
    }
}

/// The view of an optional byte slice.
pub open spec fn opt_bytes(b: Option<&[u8]>) -> Option<Seq<u8>> {
    match b {
        Some(b) => Some(b@),
        None => None,
    }
}

/// The view of an optional byte vector.
pub open spec fn opt_vec(b: Option<Vec<u8>>) -> Option<Seq<u8>> {
    match b {
        Some(b) => Some(b@),
        None => None,
    }
}

/// Reads `len` raw bytes after a length prefix of `k` bytes.
pub open spec fn parse_body(s: Seq<u8>, k: nat, len: nat) -> PResult<Seq<u8>> {
    let t = s.skip(k as int);
    if t.len() < len {
        Err(out_of_bounds(len, t.len()))
    } else {
        Ok((t.take(len as int), k + len))
    }
}

/// Reads an optional buffer: a zero length means absent.
pub open spec fn parse_buffer(s: Seq<u8>) -> PResult<Option<Seq<u8>>> {
    match parse_uint(s) {
        Err(e) => Err(e),
        Ok((n, k)) => {
            let len = (n as usize) as nat;
            if len == 0 {
                Ok((None, k))
            } else {
                match parse_body(s, k, len) {
                    Ok((b, m)) => Ok((Some(b), m)),
                    Err(e) => Err(e),
                }
            }
        },
    }
}

/// A present, non-empty buffer reads back as itself; an absent or empty one
/// reads back as absent.
pub proof fn lemma_buffer_roundtrip(b: Option<Seq<u8>>, rest: Seq<u8>)
    requires
        b matches Some(x) ==> x.len() <= usize::MAX,
    ensures
        enc_buffer(b).len() == buffer_size(b),
        parse_buffer(enc_buffer(b) + rest) == Ok::<(Option<Seq<u8>>, nat), EncodingError>((
            match b {
                Some(x) => if x.len() == 0 { None } else { Some(x) },
                None => None,
            },
            buffer_size(b),
        )),
{
    match b {
        Some(x) => {
            let n = x.len() as u64;
            lemma_uint_roundtrip(n, x + rest);
            assert(enc_buffer(b) + rest =~= enc_uint(n) + (x + rest));
            assert((enc_buffer(b) + rest).skip(uint_size(n) as int) =~= x + rest);
            assert((x + rest).take(x.len() as int) =~= x);
        },
        None => {
            lemma_uint_roundtrip(0, rest);
            assert(enc_uint(0) =~= seq![0u8]);
        },
    }
}

/// Pre-encodes an optional buffer, advancing the state cursor.
pub fn preencode_buffer(state: &mut State, buf: Option<&[u8]>)
    requires
        old(state).end + buffer_size(opt_bytes(buf)) <= usize::MAX,
    ensures
        planned(*old(state), *final(state), buffer_size(opt_bytes(buf))),
{
    match buf {
        Some(b) => {
            preencode_uint(state, b.len() as u64);
            state.end = state.end + b.len();
        },
        None => state.end = state.end + 1,
    }
}

/// Encodes an optional buffer into the state buffer.
pub fn encode_buffer(state: &mut State, buf: Option<&[u8]>)
    requires
        old(state).start + buffer_size(opt_bytes(buf)) <= old(state).buffer@.len(),
    ensures
        wrote(*old(state), *final(state), enc_buffer(opt_bytes(buf))),
{
    match buf {
        Some(b) => {
            let ghost s0 = *state;
            encode_uint(state, b.len() as u64);
            let ghost s1 = *state;
            proof {
                lemma_uint_roundtrip(b.len() as u64, Seq::empty());
            }
            write_bytes(state, b);
            proof {
                lemma_wrote_trans(s0, s1, *state, enc_uint(b.len() as u64), b@);
            }
        },
        None => {
            encode_uint8(state, 0);
        },
    }
}

/// Decodes an optional buffer from the state buffer.
pub fn decode_buffer(state: &mut State) -> (r: Result<Option<Vec<u8>>>)
    requires
        old(state).readable(),
    ensures
        read_as(*old(state), *final(state), r, parse_buffer(old(state).rest()), |v: Option<Vec<u8>>| opt_vec(v)),
{
    let ghost s0 = *state;
    let len = decode_uint(state)? as usize;
    if len == 0 {
        return Ok(None);
    }
    proof {
        lemma_rest_skip(s0, *state, (state.start - s0.start) as nat);
    }
    state.check_remaining(len)?;
    let val = read_bytes(state, len);
    Ok(Some(val))
}

// ── Strings ─────────────────────────────────────────────────────────────────

/// What `String::from_utf8_lossy` makes of `b`.
pub uninterp spec fn utf8_lossy(b: Seq<u8>) -> Seq<char>;

/// `String::from_utf8_lossy`, owned: the text of `bytes`, with each invalid
/// sequence replaced by U+FFFD. The contract names the result and states only
/// that valid UTF-8 is decoded as it is; the replacement rule is left unstated.
#[verifier::external_body]
fn string_from_utf8_lossy(bytes: &[u8]) -> (s: String)
    ensures
        s@ == utf8_lossy(bytes@),
        vstd::utf8::valid_utf8(bytes@) ==> s@ == vstd::utf8::decode_utf8(bytes@),
{
    String::from_utf8_lossy(bytes).into_owned()
}

/// The encoding of a string: its UTF-8 length as a compact uint, then its UTF-8 bytes.
pub open spec fn enc_string(t: Seq<char>) -> Seq<u8> {
    enc_uint(vstd::utf8::encode_utf8(t).len() as u64) + vstd::utf8::encode_utf8(t)
}

/// The length of [`enc_string`].
pub open spec fn string_size(t: Seq<char>) -> nat {
    uint_size(vstd::utf8::encode_utf8(t).len() as u64) + vstd::utf8::encode_utf8(t).len()
}

/// Reads a string: a length and that many bytes, decoded leniently as UTF-8.
pub open spec fn parse_string(s: Seq<u8>) -> PResult<Seq<char>> {
    match parse_uint(s) {
        Err(e) => Err(e),
        Ok((n, k)) => match parse_body(s, k, (n as usize) as nat) {
            Ok((b, m)) => Ok((utf8_lossy(b), m)),
            Err(e) => Err(e),
        },
    }
}

/// Pre-encodes a string value, advancing the state cursor.
pub fn preencode_string(state: &mut State, s: &str)
    requires
        old(state).end + string_size(s@) <= usize::MAX,
    ensures
        planned(*old(state), *final(state), string_size(s@)),
{
    let len = s.len();
    preencode_uint(state, len as u64);
    state.end = state.end + len;
}

/// Encodes a string value into the state buffer.
pub fn encode_string(state: &mut State, s: &str)
    requires
        old(state).start + string_size(s@) <= old(state).buffer@.len(),
    ensures
        wrote(*old(state), *final(state), enc_string(s@)),
{
    let bytes = s.as_bytes();
    let ghost s0 = *state;
    encode_uint(state, bytes.len() as u64);
    let ghost s1 = *state;
    proof {
        lemma_uint_roundtrip(bytes.len() as u64, Seq::empty());
    }
    write_bytes(state, bytes);
    proof {
        lemma_wrote_trans(s0, s1, *state, enc_uint(bytes.len() as u64), bytes@);
    }
}

/// Decodes a string value from the state buffer.
pub fn decode_string(state: &mut State) -> (r: Result<String>)
    requires
        old(state).readable(),
    ensures
        read_as(*old(state), *final(state), r, parse_string(old(state).rest()), |v: String| v@),
{
    let ghost s0 = *state;
    let len = decode_uint(state)? as usize;
    proof {
        lemma_rest_skip(s0, *state, (state.start - s0.start) as nat);
    }
    state.check_remaining(len)?;
    let bytes = read_bytes(state, len);
    let val = string_from_utf8_lossy(bytes.as_slice());
    Ok(val)
}

/// A string reads back as itself.
pub proof fn lemma_string_roundtrip(t: Seq<char>, rest: Seq<u8>)
    requires
        vstd::utf8::encode_utf8(t).len() <= usize::MAX,
    ensures
        enc_string(t).len() == string_size(t),
        parse_string(enc_string(t) + rest) matches Ok((v, k)) && k == string_size(t)
            && v == utf8_lossy(vstd::utf8::encode_utf8(t)),
{
    let b = vstd::utf8::encode_utf8(t);
    let n = b.len() as u64;
    lemma_uint_roundtrip(n, b + rest);
    assert(enc_string(t) + rest =~= enc_uint(n) + (b + rest));
    assert((enc_string(t) + rest).skip(uint_size(n) as int) =~= b + rest);
    assert((b + rest).take(b.len() as int) =~= b);
}

// ── Fixed-length buffers ────────────────────────────────────────────────────

/// Reads exactly `n` raw bytes.
pub open spec fn parse_fixed(s: Seq<u8>, n: nat) -> PResult<Seq<u8>> {
    if s.len() < n {
        Err(out_of_bounds(n, s.len()))
    } else {
        Ok((s.take(n as int), n))
    }
}

/// `n` raw bytes read back as themselves.
pub proof fn lemma_fixed_roundtrip(b: Seq<u8>, rest: Seq<u8>)
    ensures
        parse_fixed(b + rest, b.len()) == Ok::<(Seq<u8>, nat), EncodingError>((b, b.len())),
{
    assert((b + rest).take(b.len() as int) =~= b);
}

/// Pre-encodes a fixed-length buffer, failing when its length is not `n`.
pub fn preencode_fixed(state: &mut State, n: usize, buf: &[u8]) -> (r: Result<()>)
    requires
        buf@.len() == n ==> old(state).end + n <= usize::MAX,
    ensures
        r is Ok <==> buf@.len() == n,
        r is Ok ==> planned(*old(state), *final(state), n as nat),
        r matches Err(e) ==> e == (EncodingError::IncorrectBufferSize { expected: n, got: buf@.len() as usize })
            && *final(state) == *old(state),
{
    if buf.len() != n {
        return Err(EncodingError::IncorrectBufferSize { expected: n, got: buf.len() });
    }
    state.end = state.end + n;
    Ok(())
}

/// Encodes a fixed-length buffer into the state buffer.
pub fn encode_fixed(state: &mut State, buf: &[u8])
    requires
        old(state).start + buf@.len() <= old(state).buffer@.len(),
    ensures
        wrote(*old(state), *final(state), buf@),
{
    write_bytes(state, buf);
}

/// Decodes a fixed-length buffer from the state buffer.
pub fn decode_fixed(state: &mut State, n: usize) -> (r: Result<Vec<u8>>)
    requires
        old(state).readable(),
        n == 0 ==> old(state).start <= old(state).buffer@.len(),
    ensures
        read_as(*old(state), *final(state), r, parse_fixed(old(state).rest(), n as nat), |v: Vec<u8>| v@),
{
    state.check_remaining(n)?;
    Ok(read_bytes(state, n))
}

/// Pre-encodes a 32-byte fixed buffer, advancing the state cursor.
pub fn preencode_fixed32(state: &mut State, buf: &[u8; 32]) -> (r: Result<()>)
    requires
        old(state).end + 32 <= usize::MAX,
    ensures
        r is Ok,
        planned(*old(state), *final(state), 32),
{
    preencode_fixed(state, 32, buf)
}

/// Encodes a 32-byte fixed buffer into the state buffer.
pub fn encode_fixed32(state: &mut State, buf: &[u8; 32])
    requires
        old(state).start + 32 <= old(state).buffer@.len(),
    ensures
        wrote(*old(state), *final(state), buf@),
{
    write_bytes(state, buf);
}

/// Decodes a 32-byte fixed buffer from the state buffer.
pub fn decode_fixed32(state: &mut State) -> (r: Result<[u8; 32]>)
    requires
        old(state).readable(),
    ensures
        read_as(*old(state), *final(state), r, parse_fixed(old(state).rest(), 32), |v: [u8; 32]| v@),
{
    state.check_remaining(32)?;
    let ghost want = state.rest().take(32);
    let start = state.start;
    let mut val = [0u8; 32];
    let mut i: usize = 0;
    while i < 32
        invariant
            i <= 32,
            start + 32 <= state.end <= state.buffer@.len(),
            state.start == start,
            want == state.buffer@.subrange(start as int, start + 32),
            forall|j: int| 0 <= j < i ==> val@[j] == want[j],
        decreases 32 - i,
    {
        val[i] = state.buffer[start + i];
        i = i + 1;
    }
    state.start = start + 32;
    proof {
        assert(val@ =~= want);
    }
    Ok(val)
}

/// Pre-encodes a 64-byte fixed buffer, advancing the state cursor.
pub fn preencode_fixed64(state: &mut State, buf: &[u8; 64]) -> (r: Result<()>)
    requires
        old(state).end + 64 <= usize::MAX,
    ensures
        r is Ok,
        planned(*old(state), *final(state), 64),
{
    preencode_fixed(state, 64, buf)
}

/// Encodes a 64-byte fixed buffer into the state buffer.
pub fn encode_fixed64(state: &mut State, buf: &[u8; 64])
    requires
        old(state).start + 64 <= old(state).buffer@.len(),
    ensures
        wrote(*old(state), *final(state), buf@),
{
    write_bytes(state, buf);
}

/// Decodes a 64-byte fixed buffer from the state buffer.
pub fn decode_fixed64(state: &mut State) -> (r: Result<[u8; 64]>)
    requires
        old(state).readable(),
    ensures
        read_as(*old(state), *final(state), r, parse_fixed(old(state).rest(), 64), |v: [u8; 64]| v@),
{
    state.check_remaining(64)?;
    let ghost want = state.rest().take(64);
    let start = state.start;
    let mut val = [0u8; 64];
    let mut i: usize = 0;
    while i < 64
        invariant
            i <= 64,
            start + 64 <= state.end <= state.buffer@.len(),
            state.start == start,
            want == state.buffer@.subrange(start as int, start + 64),
            forall|j: int| 0 <= j < i ==> val@[j] == want[j],
        decreases 64 - i,
    {
        val[i] = state.buffer[start + i];
        i = i + 1;
    }
    state.start = start + 64;
    proof {
        assert(val@ =~= want);
    }
    Ok(val)
}

/// Writes the sixteen bytes of an IPv6 address.
pub fn write_octets16(state: &mut State, octets: &[u8; 16])
    requires
        old(state).start + 16 <= old(state).buffer@.len(),
    ensures
        wrote(*old(state), *final(state), octets@),
{
    write_bytes(state, octets);
}

/// Reads the sixteen bytes of an IPv6 address.
pub fn read_octets16(state: &mut State) -> (r: Result<[u8; 16]>)
    requires
        old(state).readable(),
    ensures
        read_as(*old(state), *final(state), r, parse_fixed(old(state).rest(), 16), |v: [u8; 16]| v@),
{
    state.check_remaining(16)?;
    let ghost want = state.rest().take(16);
    let start = state.start;
    let mut out = [0u8; 16];
    let mut i: usize = 0;
    while i < 16
        invariant
            i <= 16,
            state.start == start,
            start + 16 <= state.end <= state.buffer@.len(),
            want == state.buffer@.subrange(start as int, start + 16),
            forall|j: int| 0 <= j < i ==> out@[j] == want[j],
        decreases 16 - i,
    {
        out[i] = state.buffer[start + i];
        i = i + 1;
    }
    state.start = start + 16;
    proof {
        assert(out@ =~= want);
    }
    Ok(out)
}

// ── IP addresses ────────────────────────────────────────────────────────────

/// Whether `e` is the invalid-IPv4 error for the text `s`.
pub open spec fn is_invalid_ipv4(e: EncodingError, s: Seq<char>) -> bool {
    e matches EncodingError::InvalidIpv4(t) && t@ == s
}

/// Reads four bytes as a dotted-quad IPv4 address.
pub open spec fn parse_ipv4(s: Seq<u8>) -> PResult<Seq<char>> {
    match parse_fixed(s, 4) {
        Ok((b, k)) => Ok((ipv4_text(b), k)),
        Err(e) => Err(e),
    }
}

/// Pre-encodes an IPv4 address, advancing the state cursor.
pub fn preencode_ipv4(state: &mut State, _addr: &str)
    requires
        old(state).end + 4 <= usize::MAX,
    ensures
        planned(*old(state), *final(state), 4),
{
    state.end = state.end + 4;
}

/// Encodes a dotted-quad IPv4 address as its four bytes. Bad text is refused
/// with the text in the error; fields before the first bad one are already written.
pub fn encode_ipv4(state: &mut State, addr: &str) -> (r: Result<()>)
    requires
        old(state).start + ipv4_written(addr@).len() <= old(state).buffer@.len(),
    ensures
        r is Ok <==> parse_ipv4_text(addr@) is Some,
        wrote(*old(state), *final(state), ipv4_written(addr@)),
        r matches Err(e) ==> is_invalid_ipv4(e, addr@),
{
    broadcast use vstd::string::to_string_from_display_ensures_for_str;

    let chars = str_chars(addr);
    let bounds = split_dot_bounds(&chars);
    let ghost f = split_dots(addr@);
    let ghost s0 = *state;
    proof {
        lemma_wrote_nothing(s0);
        lemma_leading_parsed_len(f);
        reveal_with_fuel(leading_parsed, 2);
    }
    if bounds.len() != 4 {
        return Err(EncodingError::InvalidIpv4(addr.to_string()));
    }
    let ghost lp = leading_parsed(f);
    let mut k: usize = 0;
    while k < 4
        invariant
            k <= 4,
            k <= lp.len(),
            bounds@.len() == 4 == f.len(),
            f == split_dots(addr@),
            s0 == *old(state),
            chars@ == addr@,
            lp == leading_parsed(f),
            lp.len() <= 4,
            forall|i: int| 0 <= i < lp.len() ==> parse_u8_text(#[trigger] f[i]) == Some(lp[i]),
            lp.len() < 4 ==> parse_u8_text(f[lp.len() as int]) is None,
            forall|j: int|
                0 <= j < 4 ==> {
                    &&& (#[trigger] bounds@[j]).0 <= bounds@[j].1 <= chars@.len()
                    &&& chars@.subrange(bounds@[j].0 as int, bounds@[j].1 as int) == f[j]
                },
            s0.start + lp.len() <= s0.buffer@.len(),
            wrote(s0, *state, lp.take(k as int)),
        decreases 4 - k,
    {
        let (lo, hi) = bounds[k];
        match parse_u8_range(&chars, lo, hi) {
            None => {
                proof {
                    assert(chars@.subrange(lo as int, hi as int) == f[k as int]);
                    assert(parse_u8_text(f[k as int]) is None);
                    assert(lp.len() == k);
                    assert(lp.take(k as int) =~= lp);
                    assert(ipv4_written(addr@) == lp);
                    assert(leading_parsed(split_dots(addr@)).len() == k);
                    assert(parse_ipv4_text(addr@) is None);
                }
                return Err(EncodingError::InvalidIpv4(addr.to_string()));
            },
            Some(b) => {
                let ghost s1 = *state;
                encode_uint8(state, b);
                proof {
                    assert(lp.len() > k);
                    lemma_wrote_trans(s0, s1, *state, lp.take(k as int), seq![b]);
                    assert(lp.take(k as int) + seq![b] =~= lp.take(k + 1));
                }
                k = k + 1;
            },
        }
    }
    proof {
        assert(lp.take(4) =~= lp);
    }
    Ok(())
}

/// Decodes an IPv4 address from the state buffer as dotted-quad text.
pub fn decode_ipv4(state: &mut State) -> (r: Result<String>)
    requires
        old(state).readable(),
    ensures
        read_as(*old(state), *final(state), r, parse_ipv4(old(state).rest()), |v: String| v@),
{
    state.check_remaining(4)?;
    let ghost b = state.rest().take(4);
    let i = state.start;
    let a0 = state.buffer[i];
    let a1 = state.buffer[i + 1];
    let a2 = state.buffer[i + 2];
    let a3 = state.buffer[i + 3];
    state.start = i + 4;
    proof {
        assert(seq![a0, a1, a2, a3] =~= b);
    }
    Ok(format_ipv4(a0, a1, a2, a3))
}

/// Pre-encodes an IPv6 address, advancing the state cursor.
pub fn preencode_ipv6(state: &mut State, _addr: &str)
    requires
        old(state).end + 16 <= usize::MAX,
    ensures
        planned(*old(state), *final(state), 16),
{
    state.end = state.end + 16;
}

/// Whether `e` is the invalid-IPv6 error for the text `s`.
pub open spec fn is_invalid_ipv6(e: EncodingError, s: Seq<char>) -> bool {
    e matches EncodingError::InvalidIpv6(t) && t@ == s
}

/// The sixteen bytes of eight groups, each big-endian.
pub open spec fn ipv6_bytes(g: Seq<u16>) -> Seq<u8> {
    Seq::new(16, |i: int| if i % 2 == 0 { (g[i / 2] / 256) as u8 } else { (g[i / 2] % 256) as u8 })
}

/// The eight big-endian groups of sixteen bytes.
pub open spec fn ipv6_groups(b: Seq<u8>) -> Seq<u16> {
    Seq::new(8, |i: int| (b[2 * i] * 256 + b[2 * i + 1]) as u16)
}

/// Reads sixteen bytes as an IPv6 address in its canonical text.
pub open spec fn parse_ipv6(s: Seq<u8>) -> PResult<Seq<char>> {
    match parse_fixed(s, 16) {
        Ok((b, k)) => Ok((ipv6_text(ipv6_groups(b)), k)),
        Err(e) => Err(e),
    }
}

/// Encodes IPv6 text as its sixteen bytes; text that is not an IPv6
/// address is refused with the text in the error and nothing written.
pub fn encode_ipv6(state: &mut State, addr: &str) -> (r: Result<()>)
    requires
        parse_ipv6_text(addr@) is Some ==> old(state).start + 16 <= old(state).buffer@.len(),
        old(state).start <= old(state).buffer@.len(),
    ensures
        r is Ok <==> parse_ipv6_text(addr@) is Some,
        r is Ok ==> wrote(*old(state), *final(state), ipv6_bytes(parse_ipv6_text(addr@)->0)),
        r is Err ==> *final(state) == *old(state),
        r matches Err(e) ==> is_invalid_ipv6(e, addr@),
{
    broadcast use vstd::string::to_string_from_display_ensures_for_str;

    let chars = str_chars(addr);
    let g = match parse_ipv6_groups(&chars) {
        Some(g) => g,
        None => {
            return Err(EncodingError::InvalidIpv6(addr.to_string()));
        },
    };
    let mut bytes: Vec<u8> = Vec::new();
    let mut i: usize = 0;
    while i < 8
        invariant
            i <= 8,
            g@.len() == 8,
            bytes@.len() == 2 * i,
            forall|j: int| 0 <= j < 2 * i ==> bytes@[j] == ipv6_bytes(g@)[j],
        decreases 8 - i,
    {
        bytes.push((g[i] / 256) as u8);
        bytes.push((g[i] % 256) as u8);
        i = i + 1;
    }
    proof {
        assert(bytes@ =~= ipv6_bytes(g@));
    }
    write_bytes(state, bytes.as_slice());
    Ok(())
}

/// Decodes sixteen bytes as an IPv6 address in its canonical text.
pub fn decode_ipv6(state: &mut State) -> (r: Result<String>)
    requires
        old(state).readable(),
    ensures
        read_as(*old(state), *final(state), r, parse_ipv6(old(state).rest()), |v: String| v@),
{
    state.check_remaining(16)?;
    let ghost b = state.rest().take(16);
    let bytes = read_bytes(state, 16);
    let mut g: Vec<u16> = Vec::new();
    let mut i: usize = 0;
    while i < 8
        invariant
            i <= 8,
            bytes@ == b,
            b.len() == 16,
            g@.len() == i,
            forall|j: int| 0 <= j < i ==> g@[j] == ipv6_groups(b)[j],
        decreases 8 - i,
    {
        g.push((bytes[2 * i] as u16) * 256 + bytes[2 * i + 1] as u16);
        i = i + 1;
    }
    proof {
        assert(g@ =~= ipv6_groups(b));
    }
    Ok(format_ipv6(&g))
}

/// Encodes an IPv6 address and port into the state buffer.
pub fn encode_ipv6_address(state: &mut State, addr: &str, port: u16) -> (r: Result<()>)
    requires
        old(state).start + 18 <= old(state).buffer@.len(),
    ensures
        r is Ok <==> parse_ipv6_text(addr@) is Some,
        r is Ok ==> wrote(*old(state), *final(state), ipv6_bytes(parse_ipv6_text(addr@)->0) + le_bytes(port as nat, 2)),
        r is Err ==> *final(state) == *old(state),
        r matches Err(e) ==> is_invalid_ipv6(e, addr@),
{
    let ghost s0 = *state;
    encode_ipv6(state, addr)?;
    let ghost s1 = *state;
    encode_uint16(state, port);
    proof {
        lemma_le_bytes_len(port as nat, 2);
        lemma_wrote_trans(s0, s1, *state, ipv6_bytes(parse_ipv6_text(addr@)->0), le_bytes(port as nat, 2));
    }
    Ok(())
}

/// Reads an IPv6 address and port.
pub open spec fn parse_ipv6_address(s: Seq<u8>) -> PResult<(Seq<char>, u16)> {
    match parse_ipv6(s) {
        Err(e) => Err(e),
        Ok((a, k)) => match parse_le(s.skip(k as int), 2) {
            Err(e) => Err(e),
            Ok((p, j)) => Ok(((a, p as u16), k + j)),
        },
    }
}

/// Decodes an IPv6 address and port from the state buffer.
pub fn decode_ipv6_address(state: &mut State) -> (r: Result<(String, u16)>)
    requires
        old(state).readable(),
    ensures
        read_as(
            *old(state),
            *final(state),
            r,
            parse_ipv6_address(old(state).rest()),
            |v: (String, u16)| (v.0@, v.1),
        ),
{
    let ghost s0 = *state;
    let addr = decode_ipv6(state)?;
    proof {
        lemma_rest_skip(s0, *state, 16);
    }
    let port = decode_uint16(state)?;
    Ok((addr, port))
}

/// Eight groups written as bytes, then a port, read back as the canonical
/// text of the groups and the port.
pub proof fn lemma_ipv6_address_roundtrip(g: Seq<u16>, port: u16, rest: Seq<u8>)
    requires
        g.len() == 8,
    ensures
        parse_ipv6_address(ipv6_bytes(g) + le_bytes(port as nat, 2) + rest)
            == Ok::<((Seq<char>, u16), nat), EncodingError>(((ipv6_text(g), port), 18)),
{
    lemma_le_bytes_len(port as nat, 2);
    lemma_le_value_of_bytes(port as nat, 2);
    reveal_with_fuel(pow256, 3);
    let b = ipv6_bytes(g);
    let s = b + le_bytes(port as nat, 2) + rest;
    assert(s.take(16) =~= b);
    assert forall|i: int| 0 <= i < 8 implies #[trigger] ipv6_groups(b)[i] == g[i] by {
        assert(b[2 * i] == (g[i] / 256) as u8);
        assert(b[2 * i + 1] == (g[i] % 256) as u8);
    }
    assert(ipv6_groups(b) =~= g);
    assert(s.skip(16).take(2) =~= le_bytes(port as nat, 2));
    vstd::arithmetic::div_mod::lemma_small_mod(port as nat, 65536);
    assert(parse_le(s.skip(16), 2) == Ok::<(nat, nat), EncodingError>((port as nat, 2)));
}

/// The IP family tag of an IPv4 address.
pub const IP_FAMILY_V4: u8 = 4;

/// The IP family tag of an IPv6 address.
pub const IP_FAMILY_V6: u8 = 6;

/// Pre-encodes an IP address (family tag and address), advancing the state
/// cursor: text with a colon is taken as IPv6, any other as IPv4.
pub fn preencode_ip(state: &mut State, addr: &str)
    requires
        old(state).end + 17 <= usize::MAX,
    ensures
        planned(*old(state), *final(state), if addr@.contains(':') { 17 } else { 5 }),
{
    if str_contains_char(addr, ':') {
        preencode_uint8(state, IP_FAMILY_V6);
        preencode_ipv6(state, addr);
    } else {
        preencode_uint8(state, IP_FAMILY_V4);
        preencode_ipv4(state, addr);
    }
}

/// Encodes an IP address: text with a colon as the IPv6 family tag and
/// sixteen bytes, any other as the IPv4 family tag and four bytes. The tag
/// is written before the address is checked.
pub fn encode_ip(state: &mut State, addr: &str) -> (r: Result<()>)
    requires
        old(state).start + (if addr@.contains(':') { 17int } else { 5int }) <= old(state).buffer@.len(),
    ensures
        addr@.contains(':') ==> {
            &&& r is Ok <==> parse_ipv6_text(addr@) is Some
            &&& r is Ok ==> wrote(*old(state), *final(state), seq![IP_FAMILY_V6] + ipv6_bytes(parse_ipv6_text(addr@)->0))
            &&& r is Err ==> wrote(*old(state), *final(state), seq![IP_FAMILY_V6])
            &&& r matches Err(e) ==> is_invalid_ipv6(e, addr@)
        },
        !addr@.contains(':') ==> {
            &&& r is Ok <==> parse_ipv4_text(addr@) is Some
            &&& wrote(*old(state), *final(state), seq![IP_FAMILY_V4] + ipv4_written(addr@))
            &&& r matches Err(e) ==> is_invalid_ipv4(e, addr@)
        },
{
    let ghost s0 = *state;
    if str_contains_char(addr, ':') {
        encode_uint8(state, IP_FAMILY_V6);
        let ghost s1 = *state;
        let r = encode_ipv6(state, addr);
        proof {
            if r is Ok {
                lemma_wrote_trans(s0, s1, *state, seq![IP_FAMILY_V6], ipv6_bytes(parse_ipv6_text(addr@)->0));
            }
        }
        r
    } else {
        encode_uint8(state, IP_FAMILY_V4);
        let ghost s1 = *state;
        proof {
            lemma_leading_parsed_len(split_dots(addr@));
        }
        let r = encode_ipv4(state, addr);
        proof {
            lemma_wrote_trans(s0, s1, *state, seq![IP_FAMILY_V4], ipv4_written(addr@));
        }
        r
    }
}

/// Reads a family tag, then an address of that family.
pub open spec fn parse_ip(s: Seq<u8>) -> PResult<Seq<char>> {
    match parse_le(s, 1) {
        Err(e) => Err(e),
        Ok((f, k)) => if f == 4 {
            match parse_ipv4(s.skip(k as int)) {
                Ok((a, j)) => Ok((a, k + j)),
                Err(e) => Err(e),
            }
        } else if f == 6 {
            match parse_ipv6(s.skip(k as int)) {
                Ok((a, j)) => Ok((a, k + j)),
                Err(e) => Err(e),
            }
        } else {
            Err(EncodingError::InvalidIpFamily(f as u8))
        },
    }
}

/// Decodes an IP address: a family tag, then four or sixteen bytes.
pub fn decode_ip(state: &mut State) -> (r: Result<String>)
    requires
        old(state).readable(),
    ensures
        read_as(*old(state), *final(state), r, parse_ip(old(state).rest()), |v: String| v@),
{
    let ghost s0 = *state;
    let family = decode_uint8(state)?;
    proof {
        lemma_rest_skip(s0, *state, 1);
    }
    if family == IP_FAMILY_V4 {
        decode_ipv4(state)
    } else if family == IP_FAMILY_V6 {
        decode_ipv6(state)
    } else {
        Err(EncodingError::InvalidIpFamily(family))
    }
}

/// Pre-encodes an IPv4 address and port, advancing the state cursor.
pub fn preencode_ipv4_address(state: &mut State, addr: &str, _port: u16)
    requires
        old(state).end + 6 <= usize::MAX,
    ensures
        planned(*old(state), *final(state), 6),
{
    preencode_ipv4(state, addr);
    state.end = state.end + 2;
}

/// The encoding of an IPv4 address and port: four address bytes, then the port
/// (little endian).
pub open spec fn enc_ipv4_address(addr: Seq<u8>, port: u16) -> Seq<u8> {
    addr + le_bytes(port as nat, 2)
}

/// Encodes an IPv4 address and port into the state buffer.
pub fn encode_ipv4_address(state: &mut State, addr: &str, port: u16) -> (r: Result<()>)
    requires
        old(state).start + 6 <= old(state).buffer@.len(),
    ensures
        r is Ok <==> parse_ipv4_text(addr@) is Some,
        r is Ok ==> wrote(*old(state), *final(state), enc_ipv4_address(parse_ipv4_text(addr@)->0, port)),
        r is Err ==> wrote(*old(state), *final(state), ipv4_written(addr@)),
        r matches Err(e) ==> is_invalid_ipv4(e, addr@),
{
    let ghost s0 = *state;
    proof {
        lemma_leading_parsed_len(split_dots(addr@));
    }
    encode_ipv4(state, addr)?;
    let ghost s1 = *state;
    encode_uint16(state, port);
    proof {
        lemma_le_bytes_len(port as nat, 2);
        lemma_wrote_trans(s0, s1, *state, ipv4_written(addr@), le_bytes(port as nat, 2));
    }
    Ok(())
}

/// Reads an IPv4 address and port.
pub open spec fn parse_ipv4_address(s: Seq<u8>) -> PResult<(Seq<char>, u16)> {
    match parse_ipv4(s) {
        Err(e) => Err(e),
        Ok((a, k)) => match parse_le(s.skip(k as int), 2) {
            Err(e) => Err(e),
            Ok((p, j)) => Ok(((a, p as u16), k + j)),
        },
    }
}

/// Decodes an IPv4 address and port from the state buffer.
pub fn decode_ipv4_address(state: &mut State) -> (r: Result<(String, u16)>)
    requires
        old(state).readable(),
    ensures
        read_as(
            *old(state),
            *final(state),
            r,
            parse_ipv4_address(old(state).rest()),
            |v: (String, u16)| (v.0@, v.1),
        ),
{
    let ghost s0 = *state;
    let addr = decode_ipv4(state)?;
    proof {
        lemma_rest_skip(s0, *state, 4);
    }
    let port = decode_uint16(state)?;
    Ok((addr, port))
}

/// An IPv4 address and port read back as the canonical text and the port.
pub proof fn lemma_ipv4_address_roundtrip(addr: Seq<char>, port: u16, rest: Seq<u8>)
    requires
        parse_ipv4_text(addr) is Some,
    ensures
        enc_ipv4_address(parse_ipv4_text(addr)->0, port).len() == 6,
        parse_ipv4_address(enc_ipv4_address(parse_ipv4_text(addr)->0, port) + rest)
            == Ok::<((Seq<char>, u16), nat), EncodingError>((
            (ipv4_text(parse_ipv4_text(addr)->0), port),
            6,
        )),
{
    let b = parse_ipv4_text(addr)->0;
    lemma_leading_parsed_len(split_dots(addr));
    lemma_le_bytes_len(port as nat, 2);
    lemma_le_value_of_bytes(port as nat, 2);
    reveal_with_fuel(pow256, 3);
    let s = enc_ipv4_address(b, port) + rest;
    assert(s.take(4) =~= b);
    assert(s.skip(4).take(2) =~= le_bytes(port as nat, 2));
    vstd::arithmetic::div_mod::lemma_small_mod(port as nat, 65536);
    assert(parse_le(s.skip(4), 2) == Ok::<(nat, nat), EncodingError>((port as nat, 2)));
}

/// Pre-encodes an IPv6 address and port, advancing the state cursor.
pub fn preencode_ipv6_address(state: &mut State, addr: &str, _port: u16)
    requires
        old(state).end + 18 <= usize::MAX,
    ensures
        planned(*old(state), *final(state), 18),
{
    preencode_ipv6(state, addr);
    state.end = state.end + 2;
}

// ── Arrays ──────────────────────────────────────────────────────────────────

/// The largest array length a decoder accepts.
pub const MAX_ARRAY_LENGTH: usize = 0x100000;

/// The encodings of `xs` one after another.
pub open spec fn enc_many<T>(e: spec_fn(T) -> Seq<u8>, xs: Seq<T>) -> Seq<u8>
    decreases xs.len(),
{
    if xs.len() == 0 {
        Seq::empty()
    } else {
        enc_many(e, xs.drop_last()) + e(xs.last())
    }
}

/// Reads `n` items one after another.
pub open spec fn parse_many<T>(p: spec_fn(Seq<u8>) -> PResult<T>, s: Seq<u8>, n: nat) -> PResult<Seq<T>>
    decreases n,
{
    if n == 0 {
        Ok((Seq::empty(), 0))
    } else {
        match parse_many(p, s, (n - 1) as nat) {
            Err(e) => Err(e),
            Ok((vs, k)) => match p(s.skip(k as int)) {
                Err(e) => Err(e),
                Ok((v, j)) => Ok((vs.push(v), k + j)),
            },
        }
    }
}

/// Reads a length-prefixed array: at most [`MAX_ARRAY_LENGTH`] items.
pub open spec fn parse_array<T>(p: spec_fn(Seq<u8>) -> PResult<T>, s: Seq<u8>) -> PResult<Seq<T>> {
    match parse_uint(s) {
        Err(e) => Err(e),
        Ok((n, k)) => {
            let len = (n as usize) as nat;
            if len > 0x100000 {
                Err(EncodingError::ArrayTooLarge(len as usize))
            } else {
                match parse_many(p, s.skip(k as int), len) {
                    Ok((vs, j)) => Ok((vs, k + j)),
                    Err(e) => Err(e),
                }
            }
        },
    }
}

/// The encoding of an array: its length as a compact uint, then its items.
pub open spec fn enc_array<T>(e: spec_fn(T) -> Seq<u8>, xs: Seq<T>) -> Seq<u8> {
    enc_uint(xs.len() as u64) + enc_many(e, xs)
}

pub proof fn lemma_enc_many_step<T>(e: spec_fn(T) -> Seq<u8>, xs: Seq<T>, i: int)
    requires
        0 <= i < xs.len(),
    ensures
        enc_many(e, xs.take(i + 1)) == enc_many(e, xs.take(i)) + e(xs[i]),
{
    assert(xs.take(i + 1).drop_last() =~= xs.take(i));
}

/// Once reading an item fails, reading more items fails the same way.
pub proof fn lemma_parse_many_err<T>(p: spec_fn(Seq<u8>) -> PResult<T>, s: Seq<u8>, i: nat, n: nat)
    requires
        i <= n,
        parse_many(p, s, i) is Err,
    ensures
        parse_many(p, s, n) == parse_many(p, s, i),
    decreases n - i,
{
    if i < n {
        lemma_parse_many_err(p, s, i, (n - 1) as nat);
    }
}

/// Items that each read back read back one after another.
pub proof fn lemma_many_roundtrip<T, V>(
    p: spec_fn(Seq<u8>) -> PResult<V>,
    e: spec_fn(T) -> Seq<u8>,
    norm: spec_fn(T) -> V,
    xs: Seq<T>,
    rest: Seq<u8>,
)
    requires
        forall|i: int, r: Seq<u8>|
            0 <= i < xs.len() ==> #[trigger] p(e(xs[i]) + r) == Ok::<(V, nat), EncodingError>((
                norm(xs[i]),
                e(xs[i]).len(),
            )),
    ensures
        parse_many(p, enc_many(e, xs) + rest, xs.len()) == Ok::<(Seq<V>, nat), EncodingError>((
            xs.map_values(norm),
            enc_many(e, xs).len(),
        )),
    decreases xs.len(),
{
    if xs.len() > 0 {
        let ys = xs.drop_last();
        let x = xs.last();
        assert forall|i: int, r: Seq<u8>| 0 <= i < ys.len() implies #[trigger] p(e(ys[i]) + r)
            == Ok::<(V, nat), EncodingError>((norm(ys[i]), e(ys[i]).len())) by {
            assert(ys[i] == xs[i]);
        }
        lemma_many_roundtrip(p, e, norm, ys, e(x) + rest);
        let s = enc_many(e, xs) + rest;
        assert(s =~= enc_many(e, ys) + (e(x) + rest));
        assert(parse_many(p, s, ys.len()) == Ok::<(Seq<V>, nat), EncodingError>((
            ys.map_values(norm),
            enc_many(e, ys).len(),
        )));
        assert(s.skip(enc_many(e, ys).len() as int) =~= e(x) + rest);
        assert(p(e(xs[xs.len() - 1]) + rest) == Ok::<(V, nat), EncodingError>((norm(x), e(x).len())));
        assert(ys.map_values(norm).push(norm(x)) =~= xs.map_values(norm));
        assert(((xs.len() - 1) as nat) == ys.len());
        assert(enc_many(e, xs) == enc_many(e, ys) + e(x));
        assert(parse_many(p, s, xs.len()) == Ok::<(Seq<V>, nat), EncodingError>((
            ys.map_values(norm).push(norm(x)),
            enc_many(e, ys).len() + e(x).len(),
        )));
    } else {
        assert(xs.map_values(norm) =~= Seq::<V>::empty());
    }
}

/// An array of readable items reads back.
pub proof fn lemma_array_roundtrip<T, V>(
    p: spec_fn(Seq<u8>) -> PResult<V>,
    e: spec_fn(T) -> Seq<u8>,
    norm: spec_fn(T) -> V,
    xs: Seq<T>,
    rest: Seq<u8>,
)
    requires
        xs.len() <= 0x100000,
        forall|i: int, r: Seq<u8>|
            0 <= i < xs.len() ==> #[trigger] p(e(xs[i]) + r) == Ok::<(V, nat), EncodingError>((
                norm(xs[i]),
                e(xs[i]).len(),
            )),
    ensures
        parse_array(p, enc_array(e, xs) + rest) == Ok::<(Seq<V>, nat), EncodingError>((
            xs.map_values(norm),
            enc_array(e, xs).len(),
        )),
{
    let n = xs.len() as u64;
    lemma_uint_roundtrip(n, enc_many(e, xs) + rest);
    assert(enc_array(e, xs) + rest =~= enc_uint(n) + (enc_many(e, xs) + rest));
    assert((enc_array(e, xs) + rest).skip(uint_size(n) as int) =~= enc_many(e, xs) + rest);
    lemma_many_roundtrip(p, e, norm, xs, rest);
}

/// The encodings of a prefix of `xs` are no longer than those of `xs`.
pub proof fn lemma_enc_many_prefix<T>(e: spec_fn(T) -> Seq<u8>, xs: Seq<T>, i: int)
    requires
        0 <= i <= xs.len(),
    ensures
        enc_many(e, xs.take(i)).len() <= enc_many(e, xs).len(),
    decreases xs.len() - i,
{
    if i < xs.len() {
        lemma_enc_many_step(e, xs, i);
        lemma_enc_many_prefix(e, xs, i + 1);
    } else {
        assert(xs.take(i) =~= xs);
    }
}

/// The encoding of a compact uint, as a function.
pub open spec fn uint_item() -> spec_fn(u64) -> Seq<u8> {
    |v: u64| enc_uint(v)
}

/// The compact uint parser, as a function.
pub open spec fn uint_parser() -> spec_fn(Seq<u8>) -> PResult<u64> {
    |s: Seq<u8>| parse_uint(s)
}

/// Pre-encodes a uint array, advancing the state cursor.
pub fn preencode_uint_array(state: &mut State, arr: &[u64])
    requires
        old(state).end + enc_array(uint_item(), arr@).len() <= usize::MAX,
    ensures
        planned(*old(state), *final(state), enc_array(uint_item(), arr@).len()),
{
    proof {
        lemma_uint_roundtrip(arr@.len() as u64, Seq::empty());
    }
    preencode_uint(state, arr.len() as u64);
    let mut i: usize = 0;
    while i < arr.len()
        invariant
            i <= arr@.len(),
            old(state).end + enc_array(uint_item(), arr@).len() <= usize::MAX,
            state.start == old(state).start,
            state.buffer@ == old(state).buffer@,
            state.end == old(state).end + uint_size(arr@.len() as u64) + enc_many(uint_item(), arr@.take(i as int)).len(),
            enc_uint(arr@.len() as u64).len() == uint_size(arr@.len() as u64),
        decreases arr@.len() - i,
    {
        proof {
            lemma_enc_many_step(uint_item(), arr@, i as int);
            lemma_enc_many_prefix(uint_item(), arr@, i + 1);
            lemma_uint_roundtrip(arr@[i as int], Seq::empty());
        }
        preencode_uint(state, arr[i]);
        i = i + 1;
    }
    proof {
        assert(arr@.take(i as int) =~= arr@);
    }
}

/// Encodes a uint array: its length, then each value.
pub fn encode_uint_array(state: &mut State, arr: &[u64])
    requires
        old(state).start + enc_array(uint_item(), arr@).len() <= old(state).buffer@.len(),
    ensures
        wrote(*old(state), *final(state), enc_array(uint_item(), arr@)),
{
    let ghost s0 = *state;
    proof {
        lemma_uint_roundtrip(arr@.len() as u64, Seq::empty());
    }
    encode_uint(state, arr.len() as u64);
    let ghost s1 = *state;
    proof {
        lemma_wrote_nothing(s1);
        assert(arr@.take(0) =~= Seq::<u64>::empty());
    }
    let mut i: usize = 0;
    while i < arr.len()
        invariant
            i <= arr@.len(),
            s0 == *old(state),
            s1.start == s0.start + enc_uint(arr@.len() as u64).len(),
            s0.start + enc_array(uint_item(), arr@).len() <= s0.buffer@.len(),
            wrote(s0, s1, enc_uint(arr@.len() as u64)),
            wrote(s1, *state, enc_many(uint_item(), arr@.take(i as int))),
        decreases arr@.len() - i,
    {
        let ghost before = *state;
        proof {
            lemma_enc_many_step(uint_item(), arr@, i as int);
            lemma_enc_many_prefix(uint_item(), arr@, i + 1);
            lemma_uint_roundtrip(arr@[i as int], Seq::empty());
        }
        encode_uint(state, arr[i]);
        proof {
            lemma_wrote_trans(s1, before, *state, enc_many(uint_item(), arr@.take(i as int)), enc_uint(arr@[i as int]));
        }
        i = i + 1;
    }
    proof {
        assert(arr@.take(i as int) =~= arr@);
        lemma_wrote_trans(s0, s1, *state, enc_uint(arr@.len() as u64), enc_many(uint_item(), arr@));
    }
}

/// Decodes a uint array from the state buffer.
pub fn decode_uint_array(state: &mut State) -> (r: Result<Vec<u64>>)
    requires
        old(state).readable(),
    ensures
        read_as(*old(state), *final(state), r, parse_array(uint_parser(), old(state).rest()), |v: Vec<u64>| v@),
{
    let ghost s0 = *state;
    let len = decode_uint(state)? as usize;
    if len > MAX_ARRAY_LENGTH {
        return Err(EncodingError::ArrayTooLarge(len));
    }
    let ghost s1 = *state;
    proof {
        lemma_rest_skip(s0, s1, (s1.start - s0.start) as nat);
    }
    let mut arr: Vec<u64> = Vec::new();
    let mut i: usize = 0;
    while i < len
        invariant
            i <= len <= MAX_ARRAY_LENGTH,
            s0 == *old(state),
            s0.readable(),
            parse_uint(s0.rest()) matches Ok((n, k)) && (n as usize) == len && s1.start == s0.start + k
                && s1.rest() == s0.rest().skip(k as int) && s1.buffer@ == s0.buffer@ && s1.end == s0.end,
            s1.readable(),
            state.buffer@ == s1.buffer@,
            state.end == s1.end,
            s1.start <= state.start,
            state.start - s1.start <= s1.rest().len(),
            parse_many(uint_parser(), s1.rest(), i as nat) == Ok::<(Seq<u64>, nat), EncodingError>((
                arr@,
                (state.start - s1.start) as nat,
            )),
        decreases len - i,
    {
        let ghost before = *state;
        proof {
            lemma_rest_skip(s1, before, (before.start - s1.start) as nat);
        }
        match decode_uint(state) {
            Ok(v) => {
                arr.push(v);
                i = i + 1;
            },
            Err(e) => {
                proof {
                    assert(parse_many(uint_parser(), s1.rest(), (i + 1) as nat) == Err::<(Seq<u64>, nat), EncodingError>(e));
                    lemma_parse_many_err(uint_parser(), s1.rest(), (i + 1) as nat, len as nat);
                }
                return Err(e);
            },
        }
    }
    Ok(arr)
}

/// The encoding of an optional buffer, as a function of the slice.
pub open spec fn buffer_item<'a>() -> spec_fn(Option<&'a [u8]>) -> Seq<u8> {
    |b: Option<&'a [u8]>| enc_buffer(opt_bytes(b))
}

/// The optional buffer parser, as a function.
pub open spec fn buffer_parser() -> spec_fn(Seq<u8>) -> PResult<Option<Seq<u8>>> {
    |s: Seq<u8>| parse_buffer(s)
}

/// Pre-encodes a buffer array, advancing the state cursor.
pub fn preencode_buffer_array(state: &mut State, arr: &[Option<&[u8]>])
    requires
        old(state).end + enc_array(buffer_item(), arr@).len() <= usize::MAX,
    ensures
        planned(*old(state), *final(state), enc_array(buffer_item(), arr@).len()),
{
    proof {
        lemma_uint_roundtrip(arr@.len() as u64, Seq::empty());
    }
    preencode_uint(state, arr.len() as u64);
    let mut i: usize = 0;
    while i < arr.len()
        invariant
            i <= arr@.len(),
            old(state).end + enc_array(buffer_item(), arr@).len() <= usize::MAX,
            state.start == old(state).start,
            state.buffer@ == old(state).buffer@,
            state.end == old(state).end + uint_size(arr@.len() as u64) + enc_many(buffer_item(), arr@.take(i as int)).len(),
            enc_uint(arr@.len() as u64).len() == uint_size(arr@.len() as u64),
        decreases arr@.len() - i,
    {
        proof {
            lemma_enc_many_step(buffer_item(), arr@, i as int);
            lemma_enc_many_prefix(buffer_item(), arr@, i + 1);
            assert(enc_buffer(opt_bytes(arr@[i as int])).len() <= usize::MAX);
            lemma_buffer_roundtrip(opt_bytes(arr@[i as int]), Seq::empty());
        }
        preencode_buffer(state, arr[i]);
        i = i + 1;
    }
    proof {
        assert(arr@.take(i as int) =~= arr@);
    }
}

/// Encodes a buffer array: its length, then each optional buffer.
pub fn encode_buffer_array(state: &mut State, arr: &[Option<&[u8]>])
    requires
        old(state).start + enc_array(buffer_item(), arr@).len() <= old(state).buffer@.len(),
    ensures
        wrote(*old(state), *final(state), enc_array(buffer_item(), arr@)),
{
    let ghost s0 = *state;
    proof {
        lemma_uint_roundtrip(arr@.len() as u64, Seq::empty());
    }
    encode_uint(state, arr.len() as u64);
    let ghost s1 = *state;
    proof {
        lemma_wrote_nothing(s1);
        assert(arr@.take(0) =~= Seq::<Option<&[u8]>>::empty());
    }
    let mut i: usize = 0;
    while i < arr.len()
        invariant
            i <= arr@.len(),
            s0 == *old(state),
            s1.start == s0.start + enc_uint(arr@.len() as u64).len(),
            s0.start + enc_array(buffer_item(), arr@).len() <= s0.buffer@.len(),
            wrote(s0, s1, enc_uint(arr@.len() as u64)),
            wrote(s1, *state, enc_many(buffer_item(), arr@.take(i as int))),
        decreases arr@.len() - i,
    {
        let ghost before = *state;
        proof {
            lemma_enc_many_step(buffer_item(), arr@, i as int);
            lemma_enc_many_prefix(buffer_item(), arr@, i + 1);
            assert(enc_buffer(opt_bytes(arr@[i as int])).len() <= usize::MAX) by {
                assert(s0.buffer@.len() <= usize::MAX) by {
                    assert(s0.buffer@.len() == old(state).buffer.len());
                }
            }
            lemma_buffer_roundtrip(opt_bytes(arr@[i as int]), Seq::empty());
        }
        encode_buffer(state, arr[i]);
        proof {
            lemma_wrote_trans(
                s1,
                before,
                *state,
                enc_many(buffer_item(), arr@.take(i as int)),
                enc_buffer(opt_bytes(arr@[i as int])),
            );
        }
        i = i + 1;
    }
    proof {
        assert(arr@.take(i as int) =~= arr@);
        lemma_wrote_trans(s0, s1, *state, enc_uint(arr@.len() as u64), enc_many(buffer_item(), arr@));
    }
}

/// Decodes a buffer array from the state buffer.
pub fn decode_buffer_array(state: &mut State) -> (r: Result<Vec<Option<Vec<u8>>>>)
    requires
        old(state).readable(),
    ensures
        read_as(
            *old(state),
            *final(state),
            r,
            parse_array(buffer_parser(), old(state).rest()),
            |v: Vec<Option<Vec<u8>>>| v@.map_values(|x: Option<Vec<u8>>| opt_vec(x)),
        ),
{
    let ghost s0 = *state;
    let len = decode_uint(state)? as usize;
    if len > MAX_ARRAY_LENGTH {
        return Err(EncodingError::ArrayTooLarge(len));
    }
    let ghost s1 = *state;
    proof {
        lemma_rest_skip(s0, s1, (s1.start - s0.start) as nat);
        assert(Seq::<Option<Vec<u8>>>::empty().map_values(|x: Option<Vec<u8>>| opt_vec(x)) =~= Seq::<Option<Seq<u8>>>::empty());
    }
    let mut arr: Vec<Option<Vec<u8>>> = Vec::new();
    let mut i: usize = 0;
    while i < len
        invariant
            i <= len <= MAX_ARRAY_LENGTH,
            s0 == *old(state),
            s0.readable(),
            parse_uint(s0.rest()) matches Ok((n, k)) && (n as usize) == len && s1.start == s0.start + k
                && s1.rest() == s0.rest().skip(k as int) && s1.buffer@ == s0.buffer@ && s1.end == s0.end,
            s1.readable(),
            state.buffer@ == s1.buffer@,
            state.end == s1.end,
            s1.start <= state.start,
            state.start - s1.start <= s1.rest().len(),
            parse_many(buffer_parser(), s1.rest(), i as nat) == Ok::<(Seq<Option<Seq<u8>>>, nat), EncodingError>((
                arr@.map_values(|x: Option<Vec<u8>>| opt_vec(x)),
                (state.start - s1.start) as nat,
            )),
        decreases len - i,
    {
        let ghost before = *state;
        proof {
            lemma_rest_skip(s1, before, (before.start - s1.start) as nat);
        }
        match decode_buffer(state) {
            Ok(v) => {
                let ghost old_arr = arr@;
                arr.push(v);
                proof {
                    assert(arr@.map_values(|x: Option<Vec<u8>>| opt_vec(x)) =~= old_arr.map_values(
                        |x: Option<Vec<u8>>| opt_vec(x),
                    ).push(opt_vec(v)));
                }
                i = i + 1;
            },
            Err(e) => {
                proof {
                    assert(parse_many(buffer_parser(), s1.rest(), (i + 1) as nat) == Err::<(Seq<Option<Seq<u8>>>, nat), EncodingError>(e));
                    lemma_parse_many_err(buffer_parser(), s1.rest(), (i + 1) as nat, len as nat);
                }
                return Err(e);
            },
        }
    }
    Ok(arr)
}

/// The encoding of a string, as a function of the slice.
pub open spec fn string_item<'a>() -> spec_fn(&'a str) -> Seq<u8> {
    |t: &'a str| enc_string(t@)
}

/// The string parser, as a function.
pub open spec fn string_parser() -> spec_fn(Seq<u8>) -> PResult<Seq<char>> {
    |s: Seq<u8>| parse_string(s)
}

/// Pre-encodes a string array, advancing the state cursor.
pub fn preencode_string_array(state: &mut State, arr: &[&str])
    requires
        old(state).end + enc_array(string_item(), arr@).len() <= usize::MAX,
    ensures
        planned(*old(state), *final(state), enc_array(string_item(), arr@).len()),
{
    proof {
        lemma_uint_roundtrip(arr@.len() as u64, Seq::empty());
    }
    preencode_uint(state, arr.len() as u64);
    let mut i: usize = 0;
    while i < arr.len()
        invariant
            i <= arr@.len(),
            old(state).end + enc_array(string_item(), arr@).len() <= usize::MAX,
            state.start == old(state).start,
            state.buffer@ == old(state).buffer@,
            state.end == old(state).end + uint_size(arr@.len() as u64) + enc_many(string_item(), arr@.take(i as int)).len(),
            enc_uint(arr@.len() as u64).len() == uint_size(arr@.len() as u64),
        decreases arr@.len() - i,
    {
        proof {
            lemma_enc_many_step(string_item(), arr@, i as int);
            lemma_enc_many_prefix(string_item(), arr@, i + 1);
            lemma_uint_roundtrip(vstd::utf8::encode_utf8(arr@[i as int]@).len() as u64, Seq::empty());
        }
        preencode_string(state, arr[i]);
        i = i + 1;
    }
    proof {
        assert(arr@.take(i as int) =~= arr@);
    }
}

/// Encodes a string array: its length, then each string.
pub fn encode_string_array(state: &mut State, arr: &[&str])
    requires
        old(state).start + enc_array(string_item(), arr@).len() <= old(state).buffer@.len(),
    ensures
        wrote(*old(state), *final(state), enc_array(string_item(), arr@)),
{
    let ghost s0 = *state;
    proof {
        lemma_uint_roundtrip(arr@.len() as u64, Seq::empty());
    }
    encode_uint(state, arr.len() as u64);
    let ghost s1 = *state;
    proof {
        lemma_wrote_nothing(s1);
        assert(arr@.take(0) =~= Seq::<&str>::empty());
    }
    let mut i: usize = 0;
    while i < arr.len()
        invariant
            i <= arr@.len(),
            s0 == *old(state),
            s1.start == s0.start + enc_uint(arr@.len() as u64).len(),
            s0.start + enc_array(string_item(), arr@).len() <= s0.buffer@.len(),
            wrote(s0, s1, enc_uint(arr@.len() as u64)),
            wrote(s1, *state, enc_many(string_item(), arr@.take(i as int))),
        decreases arr@.len() - i,
    {
        let ghost before = *state;
        proof {
            lemma_enc_many_step(string_item(), arr@, i as int);
            lemma_enc_many_prefix(string_item(), arr@, i + 1);
            lemma_uint_roundtrip(vstd::utf8::encode_utf8(arr@[i as int]@).len() as u64, Seq::empty());
        }
        encode_string(state, arr[i]);
        proof {
            lemma_wrote_trans(
                s1,
                before,
                *state,
                enc_many(string_item(), arr@.take(i as int)),
                enc_string(arr@[i as int]@),
            );
        }
        i = i + 1;
    }
    proof {
        assert(arr@.take(i as int) =~= arr@);
        lemma_wrote_trans(s0, s1, *state, enc_uint(arr@.len() as u64), enc_many(string_item(), arr@));
    }
}

/// Decodes a string array from the state buffer.
pub fn decode_string_array(state: &mut State) -> (r: Result<Vec<String>>)
    requires
        old(state).readable(),
    ensures
        read_as(
            *old(state),
            *final(state),
            r,
            parse_array(string_parser(), old(state).rest()),
            |v: Vec<String>| v@.map_values(|x: String| x@),
        ),
{
    let ghost s0 = *state;
    let len = decode_uint(state)? as usize;
    if len > MAX_ARRAY_LENGTH {
        return Err(EncodingError::ArrayTooLarge(len));
    }
    let ghost s1 = *state;
    proof {
        lemma_rest_skip(s0, s1, (s1.start - s0.start) as nat);
        assert(Seq::<String>::empty().map_values(|x: String| x@) =~= Seq::<Seq<char>>::empty());
    }
    let mut arr: Vec<String> = Vec::new();
    let mut i: usize = 0;
    while i < len
        invariant
            i <= len <= MAX_ARRAY_LENGTH,
            s0 == *old(state),
            s0.readable(),
            parse_uint(s0.rest()) matches Ok((n, k)) && (n as usize) == len && s1.start == s0.start + k
                && s1.rest() == s0.rest().skip(k as int) && s1.buffer@ == s0.buffer@ && s1.end == s0.end,
            s1.readable(),
            state.buffer@ == s1.buffer@,
            state.end == s1.end,
            s1.start <= state.start,
            state.start - s1.start <= s1.rest().len(),
            parse_many(string_parser(), s1.rest(), i as nat) == Ok::<(Seq<Seq<char>>, nat), EncodingError>((
                arr@.map_values(|x: String| x@),
                (state.start - s1.start) as nat,
            )),
        decreases len - i,
    {
        let ghost before = *state;
        proof {
            lemma_rest_skip(s1, before, (before.start - s1.start) as nat);
        }
        match decode_string(state) {
            Ok(v) => {
                let ghost old_arr = arr@;
                arr.push(v);
                proof {
                    assert(arr@.map_values(|x: String| x@) =~= old_arr.map_values(|x: String| x@).push(v@));
                }
                i = i + 1;
            },
            Err(e) => {
                proof {
                    assert(parse_many(string_parser(), s1.rest(), (i + 1) as nat) == Err::<(Seq<Seq<char>>, nat), EncodingError>(e));
                    lemma_parse_many_err(string_parser(), s1.rest(), (i + 1) as nat, len as nat);
                }
                return Err(e);
            },
        }
    }
    Ok(arr)
}

// ── IPv4 peers (address text and port) ──────────────────────────────────────

/// Whether `host` is dotted-quad IPv4 text the encoder accepts.
pub open spec fn valid_host(host: Seq<char>) -> bool {
    parse_ipv4_text(host) is Some
}

/// The six wire bytes of a peer with valid host text.
pub open spec fn enc_peer(p: (Seq<char>, u16)) -> Seq<u8> {
    enc_ipv4_address(parse_ipv4_text(p.0)->0, p.1)
}

/// A peer as the decoder gives it back: canonical host text, same port.
pub open spec fn canon_peer(p: (Seq<char>, u16)) -> (Seq<char>, u16) {
    (ipv4_text(parse_ipv4_text(p.0)->0), p.1)
}

/// The peer encoding, as a function.
pub open spec fn peer_item() -> spec_fn((Seq<char>, u16)) -> Seq<u8> {
    |p: (Seq<char>, u16)| enc_peer(p)
}

/// The peer parser, as a function.
pub open spec fn peer_parser() -> spec_fn(Seq<u8>) -> PResult<(Seq<char>, u16)> {
    |s: Seq<u8>| parse_ipv4_address(s)
}

/// The canonical form of a peer, as a function.
pub open spec fn canon_peer_fn() -> spec_fn((Seq<char>, u16)) -> (Seq<char>, u16) {
    |p: (Seq<char>, u16)| canon_peer(p)
}

/// Whether every host in `ps` is valid.
pub open spec fn valid_peers(ps: Seq<(Seq<char>, u16)>) -> bool {
    forall|i: int| 0 <= i < ps.len() ==> valid_host(#[trigger] ps[i].0)
}

/// `e` is the error for the first invalid host in `ps`.
pub open spec fn first_bad_host(ps: Seq<(Seq<char>, u16)>, e: EncodingError) -> bool {
    exists|i: int|
        0 <= i < ps.len() && !valid_host(#[trigger] ps[i].0) && is_invalid_ipv4(e, ps[i].0) && forall|j: int|
            0 <= j < i ==> valid_host(#[trigger] ps[j].0)
}

/// Peers with valid hosts read back in canonical form.
pub proof fn lemma_peers_roundtrip(ps: Seq<(Seq<char>, u16)>, rest: Seq<u8>)
    requires
        valid_peers(ps),
        ps.len() <= 0x100000,
    ensures
        parse_array(peer_parser(), enc_array(peer_item(), ps) + rest) == Ok::<(Seq<(Seq<char>, u16)>, nat), EncodingError>((
            ps.map_values(canon_peer_fn()),
            enc_array(peer_item(), ps).len(),
        )),
        enc_many(peer_item(), ps).len() == 6 * ps.len(),
{
    assert forall|i: int, r: Seq<u8>| 0 <= i < ps.len() implies #[trigger] peer_parser()(peer_item()(ps[i]) + r)
        == Ok::<((Seq<char>, u16), nat), EncodingError>((canon_peer_fn()(ps[i]), peer_item()(ps[i]).len())) by {
        lemma_ipv4_address_roundtrip(ps[i].0, ps[i].1, r);
    }
    lemma_array_roundtrip(peer_parser(), peer_item(), canon_peer_fn(), ps, rest);
    lemma_peers_len(ps);
}

/// Each peer takes six bytes.
pub proof fn lemma_peers_len(ps: Seq<(Seq<char>, u16)>)
    requires
        valid_peers(ps),
    ensures
        enc_many(peer_item(), ps).len() == 6 * ps.len(),
    decreases ps.len(),
{
    if ps.len() > 0 {
        let qs = ps.drop_last();
        assert(valid_peers(qs)) by {
            assert forall|i: int| 0 <= i < qs.len() implies valid_host(#[trigger] qs[i].0) by {
                assert(qs[i] == ps[i]);
            }
        }
        lemma_peers_len(qs);
        assert(valid_host(ps[ps.len() - 1].0));
        lemma_ipv4_address_roundtrip(ps.last().0, ps.last().1, Seq::empty());
    }
}

/// Two peer lists one after another are valid exactly when both are.
pub proof fn lemma_valid_peers_concat(a: Seq<(Seq<char>, u16)>, b: Seq<(Seq<char>, u16)>)
    ensures
        valid_peers(a + b) <==> valid_peers(a) && valid_peers(b),
{
    if valid_peers(a + b) {
        assert forall|i: int| 0 <= i < a.len() implies valid_host(#[trigger] a[i].0) by {
            assert((a + b)[i] == a[i]);
        }
        assert forall|i: int| 0 <= i < b.len() implies valid_host(#[trigger] b[i].0) by {
            assert((a + b)[a.len() + i] == b[i]);
        }
    }
    if valid_peers(a) && valid_peers(b) {
        assert forall|i: int| 0 <= i < (a + b).len() implies valid_host(#[trigger] (a + b)[i].0) by {
            if i < a.len() {
                assert((a + b)[i] == a[i]);
            } else {
                assert((a + b)[i] == b[i - a.len()]);
            }
        }
    }
}

/// The first bad host of a list is the first bad host of any longer list.
pub proof fn lemma_first_bad_host_left(a: Seq<(Seq<char>, u16)>, b: Seq<(Seq<char>, u16)>, e: EncodingError)
    requires
        first_bad_host(a, e),
    ensures
        first_bad_host(a + b, e),
{
    let i = choose|i: int|
        0 <= i < a.len() && !valid_host(#[trigger] a[i].0) && is_invalid_ipv4(e, a[i].0) && forall|j: int|
            0 <= j < i ==> valid_host(#[trigger] a[j].0);
    assert((a + b)[i] == a[i]);
    assert forall|j: int| 0 <= j < i implies valid_host(#[trigger] (a + b)[j].0) by {
        assert((a + b)[j] == a[j]);
    }
}

/// After a valid list, the first bad host of what follows is the first bad host of the whole.
pub proof fn lemma_first_bad_host_right(a: Seq<(Seq<char>, u16)>, b: Seq<(Seq<char>, u16)>, e: EncodingError)
    requires
        valid_peers(a),
        first_bad_host(b, e),
    ensures
        first_bad_host(a + b, e),
{
    let i = choose|i: int|
        0 <= i < b.len() && !valid_host(#[trigger] b[i].0) && is_invalid_ipv4(e, b[i].0) && forall|j: int|
            0 <= j < i ==> valid_host(#[trigger] b[j].0);
    assert((a + b)[a.len() + i] == b[i]);
    assert forall|j: int| 0 <= j < a.len() + i implies valid_host(#[trigger] (a + b)[j].0) by {
        if j < a.len() {
            assert((a + b)[j] == a[j]);
        } else {
            assert((a + b)[j] == b[j - a.len()]);
        }
    }
}

/// A list with a first bad host is not valid.
pub proof fn lemma_first_bad_host_invalid(a: Seq<(Seq<char>, u16)>, e: EncodingError)
    requires
        first_bad_host(a, e),
    ensures
        !valid_peers(a),
{
    let i = choose|i: int|
        0 <= i < a.len() && !valid_host(#[trigger] a[i].0) && is_invalid_ipv4(e, a[i].0) && forall|j: int|
            0 <= j < i ==> valid_host(#[trigger] a[j].0);
}

// ── Optional fields behind a flag bit ───────────────────────────────────────

/// Reads an item when `present`, nothing otherwise.
pub open spec fn parse_opt<T>(p: spec_fn(Seq<u8>) -> PResult<T>, s: Seq<u8>, present: bool) -> PResult<Option<T>> {
    if present {
        match p(s) {
            Ok((v, k)) => Ok((Some(v), k)),
            Err(e) => Err(e),
        }
    } else {
        Ok((None, 0))
    }
}

/// The 32-byte parser, as a function.
pub open spec fn fixed32_parser() -> spec_fn(Seq<u8>) -> PResult<Seq<u8>> {
    |s: Seq<u8>| parse_fixed(s, 32)
}

/// The 64-byte parser, as a function.
pub open spec fn fixed64_parser() -> spec_fn(Seq<u8>) -> PResult<Seq<u8>> {
    |s: Seq<u8>| parse_fixed(s, 64)
}

/// The bytes of an optional fixed field: the field, or nothing.
pub open spec fn opt_field(b: Option<Seq<u8>>) -> Seq<u8> {
    match b {
        Some(b) => b,
        None => Seq::empty(),
    }
}

/// The view of an optional 32-byte array.
pub open spec fn opt_arr32(b: Option<[u8; 32]>) -> Option<Seq<u8>> {
    match b {
        Some(b) => Some(b@),
        None => None,
    }
}

/// The view of an optional 64-byte array.
pub open spec fn opt_arr64(b: Option<[u8; 64]>) -> Option<Seq<u8>> {
    match b {
        Some(b) => Some(b@),
        None => None,
    }
}

/// Decodes a 32-byte field when `present`.
pub(crate) fn decode_opt_fixed32(state: &mut State, present: bool) -> (r: Result<Option<[u8; 32]>>)
    requires
        old(state).readable(),
    ensures
        read_as(*old(state), *final(state), r, parse_opt(fixed32_parser(), old(state).rest(), present), |v: Option<[u8; 32]>| opt_arr32(v)),
{
    if present {
        Ok(Some(decode_fixed32(state)?))
    } else {
        Ok(None)
    }
}

/// Decodes a 64-byte field when `present`.
pub(crate) fn decode_opt_fixed64(state: &mut State, present: bool) -> (r: Result<Option<[u8; 64]>>)
    requires
        old(state).readable(),
    ensures
        read_as(*old(state), *final(state), r, parse_opt(fixed64_parser(), old(state).rest(), present), |v: Option<[u8; 64]>| opt_arr64(v)),
{
    if present {
        Ok(Some(decode_fixed64(state)?))
    } else {
        Ok(None)
    }
}

/// Encodes an optional 32-byte field (nothing when absent).
pub(crate) fn encode_opt_fixed32(state: &mut State, b: &Option<[u8; 32]>)
    requires
        old(state).start + opt_field(opt_arr32(*b)).len() <= old(state).buffer@.len(),
    ensures
        wrote(*old(state), *final(state), opt_field(opt_arr32(*b))),
{
    match b {
        Some(b) => encode_fixed32(state, b),
        None => {
            proof {
                lemma_wrote_nothing(*state);
            }
        },
    }
}

/// Encodes an optional 64-byte field (nothing when absent).
pub(crate) fn encode_opt_fixed64(state: &mut State, b: &Option<[u8; 64]>)
    requires
        old(state).start + opt_field(opt_arr64(*b)).len() <= old(state).buffer@.len(),
    ensures
        wrote(*old(state), *final(state), opt_field(opt_arr64(*b))),
{
    match b {
        Some(b) => encode_fixed64(state, b),
        None => {
            proof {
                lemma_wrote_nothing(*state);
            }
        },
    }
}

/// Decodes a compact uint when `present`, zero otherwise.
pub(crate) fn decode_uint_or_zero(state: &mut State, present: bool) -> (r: Result<u64>)
    requires
        old(state).readable(),
    ensures
        read_as(
            *old(state),
            *final(state),
            r,
            parse_opt(uint_parser(), old(state).rest(), present),
            |v: u64| if present { Some(v) } else { None },
        ),
        !present ==> r == Ok::<u64, EncodingError>(0),
{
    if present {
        decode_uint(state)
    } else {
        Ok(0)
    }
}

/// Decodes an optional buffer when `present`.
pub(crate) fn decode_opt_buffer(state: &mut State, present: bool) -> (r: Result<Option<Vec<u8>>>)
    requires
        old(state).readable(),
    ensures
        read_as(
            *old(state),
            *final(state),
            r,
            parse_opt(buffer_parser(), old(state).rest(), present),
            |v: Option<Vec<u8>>| if present { Some(opt_vec(v)) } else { None },
        ),
        !present ==> r matches Ok(None),
{
    if present {
        decode_buffer(state)
    } else {
        Ok(None)
    }
}

} // verus!
