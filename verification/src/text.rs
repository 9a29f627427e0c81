//! Dotted-quad IPv4 text: how it is read and how it is written.
//!
//! Reading follows `str::split('.')` and `u8::from_str`: exactly four
//! dot-separated fields, each an optional `+` followed by one or more decimal
//! digits with a value of at most 255. Writing follows the `Display` of `u8`.
use vstd::prelude::*;
use vstd::string::StringExecFns;
use vstd::std_specs::iter::IteratorSpec;

verus! {

broadcast use vstd::string::axiom_spec_iter, vstd::string::next_postcondition;

/// Whether `c` is an ASCII decimal digit.
pub open spec fn is_digit(c: char) -> bool {
    '0' <= c && c <= '9'
}

/// The value of a decimal digit.
pub open spec fn digit_value(c: char) -> nat {
    ((c as u32) - ('0' as u32)) as nat
}

/// The character of the decimal digit `d` (`d < 10`).
pub open spec fn digit_char(d: nat) -> char {
    ((d + 48) as u32) as char
}

/// The decimal text of `v`, without leading zeros.
pub open spec fn decimal(v: nat) -> Seq<char>
    decreases v,
{
    if v < 10 {
        seq![digit_char(v)]
    } else {
        decimal(v / 10).push(digit_char(v % 10))
    }
}

/// Whether every character of `q` is a decimal digit.
pub open spec fn all_digits(q: Seq<char>) -> bool {
    forall|i: int| 0 <= i < q.len() ==> is_digit(#[trigger] q[i])
}

/// The value of a string of decimal digits.
pub open spec fn digits_value(q: Seq<char>) -> nat
    decreases q.len(),
{
    if q.len() == 0 {
        0
    } else {
        digits_value(q.drop_last()) * 10 + digit_value(q.last())
    }
}

/// `u8::from_str`: an optional `+`, then at least one digit, with a value of at most 255.
pub open spec fn parse_u8_text(p: Seq<char>) -> Option<u8> {
    let q = if p.len() > 1 && p[0] == '+' {
        p.drop_first()
    } else {
        p
    };
    if q.len() == 0 || !all_digits(q) || digits_value(q) > 255 {
        None
    } else {
        Some(digits_value(q) as u8)
    }
}

/// `u16::from_str`: an optional `+`, then at least one digit, with a value of at most 65535.
pub open spec fn parse_u16_text(p: Seq<char>) -> Option<u16> {
    let q = if p.len() > 1 && p[0] == '+' {
        p.drop_first()
    } else {
        p
    };
    if q.len() == 0 || !all_digits(q) || digits_value(q) > 65535 {
        None
    } else {
        Some(digits_value(q) as u16)
    }
}

/// `str::split('.')`: the fields between dots; there is always at least one.
pub open spec fn split_dots(s: Seq<char>) -> Seq<Seq<char>>
    decreases s.len(),
{
    if s.len() == 0 {
        seq![Seq::empty()]
    } else {
        let p = split_dots(s.drop_last());
        if s.last() == '.' {
            p.push(Seq::empty())
        } else {
            p.update(p.len() - 1, p.last().push(s.last()))
        }
    }
}

/// The values of the leading fields that parse as bytes, up to the first one that does not.
pub open spec fn leading_parsed(f: Seq<Seq<char>>) -> Seq<u8>
    decreases f.len(),
{
    if f.len() == 0 {
        Seq::empty()
    } else {
        match parse_u8_text(f[0]) {
            None => Seq::empty(),
            Some(b) => seq![b] + leading_parsed(f.drop_first()),
        }
    }
}

/// The four bytes of a dotted-quad IPv4 address, or `None` when `s` is not one.
pub open spec fn parse_ipv4_text(s: Seq<char>) -> Option<Seq<u8>> {
    let f = split_dots(s);
    if f.len() == 4 && leading_parsed(f).len() == 4 {
        Some(leading_parsed(f))
    } else {
        None
    }
}

/// The bytes the IPv4 encoder writes before it stops: all four for a valid
/// address, the leading valid fields when a later one is bad, and none when the
/// text does not have four fields.
pub open spec fn ipv4_written(s: Seq<char>) -> Seq<u8> {
    let f = split_dots(s);
    if f.len() == 4 {
        leading_parsed(f)
    } else {
        Seq::empty()
    }
}

/// The dotted-quad text of four bytes, as `format!("{}.{}.{}.{}", ..)` writes it.
pub open spec fn ipv4_text(b: Seq<u8>) -> Seq<char> {
    decimal(b[0] as nat) + seq!['.'] + decimal(b[1] as nat) + seq!['.'] + decimal(b[2] as nat)
        + seq!['.'] + decimal(b[3] as nat)
}

/// Whether `s` is the text the address decoder writes for some four bytes.
pub open spec fn is_canonical_ipv4(s: Seq<char>) -> bool {
    parse_ipv4_text(s) matches Some(b) && ipv4_text(b) == s
}

/// The decimal text of `v`, without leading zeros.
pub fn decimal_string(v: u64) -> (s: String)
    ensures
        s@ == decimal(v as nat),
    decreases v,
{
    if v < 10 {
        let d = crate::hex::hex_digit(v as u8);
        d.to_owned()
    } else {
        let mut s = decimal_string(v / 10);
        let d = crate::hex::hex_digit((v % 10) as u8);
        s.append(d);
        s
    }
}

/// The four bytes in decimal, joined by dots.
pub fn format_ipv4(a: u8, b: u8, c: u8, d: u8) -> (s: String)
    ensures
        s@ == ipv4_text(seq![a, b, c, d]),
{
    proof {
        reveal_strlit(".");
    }
    let mut s = decimal_string(a as u64);
    s.append(".");
    s.append(decimal_string(b as u64).as_str());
    s.append(".");
    s.append(decimal_string(c as u64).as_str());
    s.append(".");
    s.append(decimal_string(d as u64).as_str());
    proof {
        assert(s@ =~= ipv4_text(seq![a, b, c, d]));
    }
    s
}

/// The characters of `s`, in order.
pub fn str_chars(s: &str) -> (v: Vec<char>)
    ensures
        v@ == s@,
{
    let mut it = s.chars();
    let mut v: Vec<char> = Vec::new();
    loop
        invariant
            v@ + it.remaining() == s@,
            it.decrease() is Some,
        decreases it.decrease()->0,
    {
        let ghost before = it.remaining();
        match it.next() {
            Some(c) => {
                v.push(c);
                proof {
                    assert(v@ + it.remaining() =~= s@);
                }
            },
            None => {
                assert(v@ =~= s@);
                return v;
            },
        }
    }
}

/// Whether `s` holds the character `c`.
pub fn str_contains_char(s: &str, c: char) -> (b: bool)
    ensures
        b == s@.contains(c),
{
    let v = str_chars(s);
    let mut i: usize = 0;
    while i < v.len()
        invariant
            i <= v@.len(),
            v@ == s@,
            forall|j: int| 0 <= j < i ==> v@[j] != c,
        decreases v@.len() - i,
    {
        if v[i] == c {
            return true;
        }
        i = i + 1;
    }
    false
}

/// Whether `a[alo..ahi]` and `b[blo..bhi]` hold the same characters.
pub fn same_range(a: &Vec<char>, alo: usize, ahi: usize, b: &Vec<char>, blo: usize, bhi: usize) -> (r: bool)
    requires
        alo <= ahi <= a@.len(),
        blo <= bhi <= b@.len(),
    ensures
        r == (a@.subrange(alo as int, ahi as int) == b@.subrange(blo as int, bhi as int)),
{
    if ahi - alo != bhi - blo {
        assert(a@.subrange(alo as int, ahi as int).len() != b@.subrange(blo as int, bhi as int).len());
        return false;
    }
    let n = ahi - alo;
    let ghost sa = a@.subrange(alo as int, ahi as int);
    let ghost sb = b@.subrange(blo as int, bhi as int);
    let mut k: usize = 0;
    while k < n
        invariant
            k <= n,
            n == ahi - alo == bhi - blo,
            alo <= ahi <= a@.len(),
            blo <= bhi <= b@.len(),
            sa == a@.subrange(alo as int, ahi as int),
            sb == b@.subrange(blo as int, bhi as int),
            forall|m: int| 0 <= m < k ==> #[trigger] sa[m] == sb[m],
        decreases n - k,
    {
        if a[alo + k] != b[blo + k] {
            assert(sa[k as int] != sb[k as int]);
            return false;
        }
        k = k + 1;
    }
    assert(sa =~= sb);
    true
}

/// Whether two strings hold the same characters.
pub fn same_str(a: &str, b: &str) -> (r: bool)
    ensures
        r == (a@ == b@),
{
    let av = str_chars(a);
    let bv = str_chars(b);
    let r = same_range(&av, 0, av.len(), &bv, 0, bv.len());
    proof {
        assert(av@.subrange(0, av@.len() as int) =~= av@);
        assert(bv@.subrange(0, bv@.len() as int) =~= bv@);
    }
    r
}

// ── Lemmas ──────────────────────────────────────────────────────────────────

pub proof fn lemma_leading_parsed_len(f: Seq<Seq<char>>)
    ensures
        leading_parsed(f).len() <= f.len(),
        forall|i: int|
            0 <= i < leading_parsed(f).len() ==> parse_u8_text(#[trigger] f[i]) == Some(
                leading_parsed(f)[i],
            ),
        leading_parsed(f).len() < f.len() ==> parse_u8_text(f[leading_parsed(f).len() as int]) is None,
    decreases f.len(),
{
    if f.len() > 0 {
        lemma_leading_parsed_len(f.drop_first());
        if let Some(b) = parse_u8_text(f[0]) {
            assert forall|i: int| 0 <= i < leading_parsed(f).len() implies parse_u8_text(
                #[trigger] f[i],
            ) == Some(leading_parsed(f)[i]) by {
                if i > 0 {
                    assert(f[i] == f.drop_first()[i - 1]);
                }
            }
        }
    }
}

/// The digit character of `d` is a digit worth `d`.
pub proof fn lemma_digit_char(d: nat)
    requires
        d < 10,
    ensures
        is_digit(digit_char(d)),
        digit_value(digit_char(d)) == d,
        digit_char(d) != '.',
        digit_char(d) != '+',
{
    let u = (d + 48) as u32;
    vstd::utf8::char_u32_cast(digit_char(d), u);
    assert(u as char as u32 == u) by {
        assert(u <= 57);
    }
}

/// The decimal text of `v` is a non-empty run of digits worth `v`.
pub proof fn lemma_decimal(v: nat)
    ensures
        decimal(v).len() >= 1,
        all_digits(decimal(v)),
        digits_value(decimal(v)) == v,
        !decimal(v).contains('.'),
        decimal(v)[0] != '+',
        v < 256 ==> decimal(v).len() <= 3,
    decreases v,
{
    if v < 10 {
        lemma_digit_char(v);
        assert(decimal(v).drop_last() =~= Seq::<char>::empty());
        assert(digits_value(Seq::<char>::empty()) == 0);
    } else {
        lemma_decimal(v / 10);
        lemma_digit_char(v % 10);
        let d = decimal(v / 10);
        assert(decimal(v).drop_last() =~= d);
        assert forall|i: int| 0 <= i < decimal(v).len() implies is_digit(#[trigger] decimal(v)[i]) by {
            if i < d.len() {
                assert(decimal(v)[i] == d[i]);
            }
        }
        if decimal(v).contains('.') {
            let i = choose|i: int| 0 <= i < decimal(v).len() && decimal(v)[i] == '.';
            if i < d.len() {
                assert(d[i] == '.');
            }
        }
        if v < 256 {
            assert(v / 10 < 26);
            lemma_decimal_len_small(v / 10);
        }
    }
}

proof fn lemma_decimal_len_small(v: nat)
    requires
        v < 26,
    ensures
        decimal(v).len() <= 2,
{
    if v >= 10 {
        assert(decimal(v / 10).len() == 1);
    }
}

/// A decimal text reads back as its value.
pub proof fn lemma_parse_u8_decimal(v: u8)
    ensures
        parse_u8_text(decimal(v as nat)) == Some(v),
{
    lemma_decimal(v as nat);
}

/// Splitting text that has no dot after some text extends the last field.
pub proof fn lemma_split_nodot(s: Seq<char>, t: Seq<char>)
    requires
        !t.contains('.'),
    ensures
        split_dots(s + t) == split_dots(s).update(
            split_dots(s).len() - 1,
            split_dots(s).last() + t,
        ),
        split_dots(s + t).len() == split_dots(s).len(),
    decreases t.len(),
{
    lemma_split_len(s);
    if t.len() == 0 {
        assert(s + t =~= s);
        assert(split_dots(s).last() + t =~= split_dots(s).last());
        assert(split_dots(s).update(split_dots(s).len() - 1, split_dots(s).last()) =~= split_dots(s));
    } else {
        let t0 = t.drop_last();
        let c = t.last();
        assert(!t0.contains('.')) by {
            if t0.contains('.') {
                let i = choose|i: int| 0 <= i < t0.len() && t0[i] == '.';
                assert(t[i] == '.');
            }
        }
        assert(c != '.') by {
            assert(t[t.len() - 1] == c);
        }
        lemma_split_nodot(s, t0);
        assert((s + t).drop_last() =~= s + t0);
        assert((s + t).last() == c);
        assert(split_dots(s).last() + t =~= (split_dots(s).last() + t0).push(c));
        assert(split_dots(s + t) =~= split_dots(s).update(
            split_dots(s).len() - 1,
            split_dots(s).last() + t,
        ));
    }
}

pub proof fn lemma_split_len(s: Seq<char>)
    ensures
        split_dots(s).len() >= 1,
    decreases s.len(),
{
    if s.len() > 0 {
        lemma_split_len(s.drop_last());
    }
}

/// The text of four bytes reads back as those bytes.
pub proof fn lemma_ipv4_text_roundtrip(b: Seq<u8>)
    requires
        b.len() == 4,
    ensures
        parse_ipv4_text(ipv4_text(b)) == Some(b),
        is_canonical_ipv4(ipv4_text(b)),
{
    let d0 = decimal(b[0] as nat);
    let d1 = decimal(b[1] as nat);
    let d2 = decimal(b[2] as nat);
    let d3 = decimal(b[3] as nat);
    lemma_decimal(b[0] as nat);
    lemma_decimal(b[1] as nat);
    lemma_decimal(b[2] as nat);
    lemma_decimal(b[3] as nat);
    let e = Seq::<char>::empty();
    lemma_split_nodot(e, d0);
    assert(e + d0 =~= d0);
    assert(split_dots(e) =~= seq![e]);
    let s1 = d0 + seq!['.'];
    assert(s1.drop_last() =~= d0);
    let s2 = s1 + d1;
    lemma_split_nodot(s1, d1);
    let s3 = s2 + seq!['.'];
    assert(s3.drop_last() =~= s2);
    let s4 = s3 + d2;
    lemma_split_nodot(s3, d2);
    let s5 = s4 + seq!['.'];
    assert(s5.drop_last() =~= s4);
    let s6 = s5 + d3;
    lemma_split_nodot(s5, d3);
    assert(ipv4_text(b) == s6);
    let f = split_dots(s6);
    assert(f =~= seq![d0, d1, d2, d3]) by {
        assert(split_dots(d0) =~= seq![e + d0]);
        assert(seq![e].last() + d0 =~= d0);
        assert(split_dots(s1) =~= seq![d0, e]);
        assert(split_dots(s2) =~= seq![d0, e + d1]);
        assert(e + d1 =~= d1);
        assert(split_dots(s3) =~= seq![d0, d1, e]);
        assert(e + d2 =~= d2);
        assert(split_dots(s4) =~= seq![d0, d1, d2]);
        assert(split_dots(s5) =~= seq![d0, d1, d2, e]);
        assert(e + d3 =~= d3);
    }
    lemma_parse_u8_decimal(b[0]);
    lemma_parse_u8_decimal(b[1]);
    lemma_parse_u8_decimal(b[2]);
    lemma_parse_u8_decimal(b[3]);
    reveal_with_fuel(leading_parsed, 5);
    assert(f.drop_first() =~= seq![d1, d2, d3]);
    assert(f.drop_first().drop_first() =~= seq![d2, d3]);
    assert(f.drop_first().drop_first().drop_first() =~= seq![d3]);
    assert(f.drop_first().drop_first().drop_first().drop_first() =~= Seq::<Seq<char>>::empty());
    assert(leading_parsed(f) =~= b);
}

// ── Executable reading ──────────────────────────────────────────────────────

/// The bounds of the dot-separated fields of `v`, as `str::split('.')` finds them.
pub fn split_dot_bounds(v: &Vec<char>) -> (b: Vec<(usize, usize)>)
    ensures
        b@.len() == split_dots(v@).len(),
        forall|j: int|
            0 <= j < b@.len() ==> {
                &&& (#[trigger] b@[j]).0 <= b@[j].1 <= v@.len()
                &&& v@.subrange(b@[j].0 as int, b@[j].1 as int) == split_dots(v@)[j]
            },
{
    let mut b: Vec<(usize, usize)> = Vec::new();
    let mut lo: usize = 0;
    let mut i: usize = 0;
    proof {
        assert(v@.take(0) =~= Seq::<char>::empty());
    }
    while i < v.len()
        invariant
            lo <= i <= v@.len(),
            split_dots(v@.take(i as int)).len() == b@.len() + 1,
            split_dots(v@.take(i as int)).last() == v@.subrange(lo as int, i as int),
            forall|j: int|
                0 <= j < b@.len() ==> {
                    &&& (#[trigger] b@[j]).0 <= b@[j].1 <= i
                    &&& v@.subrange(b@[j].0 as int, b@[j].1 as int) == split_dots(v@.take(i as int))[j]
                },
        decreases v@.len() - i,
    {
        let c = v[i];
        let ghost prev = split_dots(v@.take(i as int));
        proof {
            assert(v@.take(i + 1).drop_last() =~= v@.take(i as int));
            assert(v@.take(i + 1).last() == c);
        }
        if c == '.' {
            b.push((lo, i));
            lo = i + 1;
            i = i + 1;
            proof {
                assert(split_dots(v@.take(i as int)) == prev.push(Seq::empty()));
                assert(v@.subrange(lo as int, i as int) =~= Seq::<char>::empty());
            }
        } else {
            i = i + 1;
            proof {
                assert(split_dots(v@.take(i as int)) == prev.update(prev.len() - 1, prev.last().push(c)));
                assert(v@.subrange(lo as int, i as int) =~= prev.last().push(c));
            }
        }
    }
    b.push((lo, i));
    proof {
        assert(v@.take(i as int) =~= v@);
    }
    b
}

/// `u8::from_str` on the characters `v[lo..hi]`.
pub fn parse_u8_range(v: &Vec<char>, lo: usize, hi: usize) -> (r: Option<u8>)
    requires
        lo <= hi <= v@.len(),
    ensures
        r == parse_u8_text(v@.subrange(lo as int, hi as int)),
{
    let ghost p = v@.subrange(lo as int, hi as int);
    let mut i = lo;
    if hi - lo > 1 && v[lo] == '+' {
        i = lo + 1;
    }
    let ghost q = v@.subrange(i as int, hi as int);
    proof {
        if hi - lo > 1 && v@[lo as int] == '+' {
            assert(q =~= p.drop_first());
        } else {
            assert(q =~= p);
        }
    }
    if i == hi {
        return None;
    }
    let i0 = i;
    let mut acc: u32 = 0;
    proof {
        assert(v@.subrange(i0 as int, i0 as int) =~= Seq::<char>::empty());
    }
    while i < hi
        invariant
            lo <= i0 <= i <= hi <= v@.len(),
            q == v@.subrange(i0 as int, hi as int),
            p == v@.subrange(lo as int, hi as int),
            q == (if p.len() > 1 && p[0] == '+' { p.drop_first() } else { p }),
            all_digits(v@.subrange(i0 as int, i as int)),
            acc as nat == digits_value(v@.subrange(i0 as int, i as int)),
            acc <= 255,
        decreases hi - i,
    {
        let c = v[i];
        let ghost pre = v@.subrange(i0 as int, i as int);
        let ghost nxt = v@.subrange(i0 as int, i + 1);
        proof {
            assert(nxt.drop_last() =~= pre);
            assert(nxt.last() == c);
        }
        if !(c >= '0' && c <= '9') {
            proof {
                assert(!all_digits(q)) by {
                    assert(q[i - i0] == c);
                }
            }
            return None;
        }
        acc = acc * 10 + ((c as u32) - ('0' as u32));
        i = i + 1;
        proof {
            assert(all_digits(nxt)) by {
                assert forall|j: int| 0 <= j < nxt.len() implies is_digit(#[trigger] nxt[j]) by {
                    if j < pre.len() {
                        assert(nxt[j] == pre[j]);
                    }
                }
            }
        }
        if acc > 255 {
            proof {
                lemma_digits_value_prefix(q, (i - i0) as nat);
                assert(q.take((i - i0) as int) =~= nxt);
            }
            return None;
        }
    }
    proof {
        assert(v@.subrange(i0 as int, i as int) =~= q);
    }
    Some(acc as u8)
}

/// `u16::from_str` on the characters `v[lo..hi]`.
pub fn parse_u16_range(v: &Vec<char>, lo: usize, hi: usize) -> (r: Option<u16>)
    requires
        lo <= hi <= v@.len(),
    ensures
        r == parse_u16_text(v@.subrange(lo as int, hi as int)),
{
    let ghost p = v@.subrange(lo as int, hi as int);
    let mut i = lo;
    if hi - lo > 1 && v[lo] == '+' {
        i = lo + 1;
    }
    let ghost q = v@.subrange(i as int, hi as int);
    proof {
        if hi - lo > 1 && v@[lo as int] == '+' {
            assert(q =~= p.drop_first());
        } else {
            assert(q =~= p);
        }
    }
    if i == hi {
        return None;
    }
    let i0 = i;
    let mut acc: u32 = 0;
    proof {
        assert(v@.subrange(i0 as int, i0 as int) =~= Seq::<char>::empty());
    }
    while i < hi
        invariant
            lo <= i0 <= i <= hi <= v@.len(),
            q == v@.subrange(i0 as int, hi as int),
            p == v@.subrange(lo as int, hi as int),
            q == (if p.len() > 1 && p[0] == '+' { p.drop_first() } else { p }),
            all_digits(v@.subrange(i0 as int, i as int)),
            acc as nat == digits_value(v@.subrange(i0 as int, i as int)),
            acc <= 65535,
        decreases hi - i,
    {
        let c = v[i];
        let ghost pre = v@.subrange(i0 as int, i as int);
        let ghost nxt = v@.subrange(i0 as int, i + 1);
        proof {
            assert(nxt.drop_last() =~= pre);
            assert(nxt.last() == c);
        }
        if !(c >= '0' && c <= '9') {
            proof {
                assert(!all_digits(q)) by {
                    assert(q[i - i0] == c);
                }
            }
            return None;
        }
        acc = acc * 10 + ((c as u32) - ('0' as u32));
        i = i + 1;
        proof {
            assert(all_digits(nxt)) by {
                assert forall|j: int| 0 <= j < nxt.len() implies is_digit(#[trigger] nxt[j]) by {
                    if j < pre.len() {
                        assert(nxt[j] == pre[j]);
                    }
                }
            }
        }
        if acc > 65535 {
            proof {
                lemma_digits_value_prefix(q, (i - i0) as nat);
                assert(q.take((i - i0) as int) =~= nxt);
            }
            return None;
        }
    }
    proof {
        assert(v@.subrange(i0 as int, i as int) =~= q);
    }
    Some(acc as u16)
}

/// A run of digits is worth at least any of its prefixes.
proof fn lemma_digits_value_prefix(q: Seq<char>, k: nat)
    requires
        k <= q.len(),
    ensures
        digits_value(q.take(k as int)) <= digits_value(q),
    decreases q.len() - k,
{
    if k < q.len() {
        lemma_digits_value_prefix(q, (k + 1) as nat);
        assert(q.take((k + 1) as int).drop_last() =~= q.take(k as int));
    } else {
        assert(q.take(k as int) =~= q);
    }
}

} // verus!
