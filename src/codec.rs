//! Fixed-width big-endian integers and the frame integrity digest.
use vstd::prelude::*;

verus! {

/// The four big-endian bytes of `x`.
pub open spec fn be32(x: u32) -> Seq<u8> {
    seq![(x >> 24u32) as u8, (x >> 16u32) as u8, (x >> 8u32) as u8, x as u8]
}

/// The value of four big-endian bytes.
pub open spec fn be32_value(b0: u8, b1: u8, b2: u8, b3: u8) -> u32 {
    ((b0 as u32) << 24u32) | ((b1 as u32) << 16u32) | ((b2 as u32) << 8u32) | (b3 as u32)
}

/// The value of the four bytes of `s` that start at `at`.
pub open spec fn be32_at(s: Seq<u8>, at: int) -> u32 {
    be32_value(s[at], s[at + 1], s[at + 2], s[at + 3])
}

/// The eight big-endian bytes of `x`.
pub open spec fn be64(x: u64) -> Seq<u8> {
    seq![
        (x >> 56u64) as u8, (x >> 48u64) as u8, (x >> 40u64) as u8, (x >> 32u64) as u8,
        (x >> 24u64) as u8, (x >> 16u64) as u8, (x >> 8u64) as u8, x as u8,
    ]
}

/// The value of the eight bytes of `s` that start at `at`.
pub open spec fn be64_at(s: Seq<u8>, at: int) -> u64 {
    ((s[at] as u64) << 56u64) | ((s[at + 1] as u64) << 48u64) | ((s[at + 2] as u64) << 40u64)
        | ((s[at + 3] as u64) << 32u64) | ((s[at + 4] as u64) << 24u64) | ((s[at + 5] as u64)
        << 16u64) | ((s[at + 6] as u64) << 8u64) | (s[at + 7] as u64)
}

/// Reading back the bytes of a 32-bit integer gives the integer.
pub proof fn lemma_be32_round_trip(x: u32)
    ensures
        be32_at(be32(x), 0) == x,
{
    let b = be32(x);
    assert(be32_value((x >> 24u32) as u8, (x >> 16u32) as u8, (x >> 8u32) as u8, x as u8) == x)
        by (bit_vector);
}

/// Reading back the bytes of a 64-bit integer gives the integer.
pub proof fn lemma_be64_round_trip(x: u64)
    ensures
        be64_at(be64(x), 0) == x,
{
    let b0 = (x >> 56u64) as u8;
    let b1 = (x >> 48u64) as u8;
    let b2 = (x >> 40u64) as u8;
    let b3 = (x >> 32u64) as u8;
    let b4 = (x >> 24u64) as u8;
    let b5 = (x >> 16u64) as u8;
    let b6 = (x >> 8u64) as u8;
    let b7 = x as u8;
    assert(((b0 as u64) << 56u64) | ((b1 as u64) << 48u64) | ((b2 as u64) << 40u64) | ((
    b3 as u64) << 32u64) | ((b4 as u64) << 24u64) | ((b5 as u64) << 16u64) | ((b6 as u64)
        << 8u64) | (b7 as u64) == x) by (bit_vector)
        requires
            b0 == (x >> 56u64) as u8,
            b1 == (x >> 48u64) as u8,
            b2 == (x >> 40u64) as u8,
            b3 == (x >> 32u64) as u8,
            b4 == (x >> 24u64) as u8,
            b5 == (x >> 16u64) as u8,
            b6 == (x >> 8u64) as u8,
            b7 == x as u8,
    ;
}

/// Four bytes are the encoding of their own value.
pub proof fn lemma_be32_of_value(s: Seq<u8>, at: int)
    requires
        0 <= at,
        at + 4 <= s.len(),
    ensures
        be32(be32_at(s, at)) == s.subrange(at, at + 4),
{
    let (b0, b1, b2, b3) = (s[at], s[at + 1], s[at + 2], s[at + 3]);
    let v = be32_value(b0, b1, b2, b3);
    assert((v >> 24u32) as u8 == b0 && (v >> 16u32) as u8 == b1 && (v >> 8u32) as u8 == b2
        && v as u8 == b3) by (bit_vector)
        requires
            v == be32_value(b0, b1, b2, b3),
    ;
    assert(be32(v) =~= s.subrange(at, at + 4));
}

/// Encodes `x` as four big-endian bytes at the end of `out`.
pub fn push_be32(out: &mut Vec<u8>, x: u32)
    ensures
        final(out)@ == old(out)@ + be32(x),
{
    out.push((x >> 24u32) as u8);
    out.push((x >> 16u32) as u8);
    out.push((x >> 8u32) as u8);
    out.push(x as u8);
    assert(final(out)@ =~= old(out)@ + be32(x));
}

/// Encodes `x` as eight big-endian bytes at the end of `out`.
pub fn push_be64(out: &mut Vec<u8>, x: u64)
    ensures
        final(out)@ == old(out)@ + be64(x),
{
    out.push((x >> 56u64) as u8);
    out.push((x >> 48u64) as u8);
    out.push((x >> 40u64) as u8);
    out.push((x >> 32u64) as u8);
    out.push((x >> 24u64) as u8);
    out.push((x >> 16u64) as u8);
    out.push((x >> 8u64) as u8);
    out.push(x as u8);
    assert(final(out)@ =~= old(out)@ + be64(x));
}

/// Reads the big-endian 32-bit integer at `at`.
pub fn read_be32(s: &[u8], at: usize) -> (r: u32)
    requires
        at + 4 <= s@.len(),
    ensures
        r == be32_at(s@, at as int),
{
    ((s[at] as u32) << 24u32) | ((s[at + 1] as u32) << 16u32) | ((s[at + 2] as u32) << 8u32)
        | (s[at + 3] as u32)
}

/// Modulus of the digest's 64-bit lanes.
pub open spec fn lane_modulus() -> int {
    0x1_0000_0000_0000_0000
}

/// Sum of all bytes of `s`.
pub open spec fn byte_sum(s: Seq<u8>) -> int
    decreases s.len(),
{
    if s.len() == 0 {
        0
    } else {
        byte_sum(s.drop_last()) + s.last()
    }
}

/// Sum of the byte sums of every non-empty prefix of `s`: each byte weighted by
/// the number of prefixes that hold it, so that the order of bytes counts.
pub open spec fn running_sum(s: Seq<u8>) -> int
    decreases s.len(),
{
    if s.len() == 0 {
        0
    } else {
        running_sum(s.drop_last()) + byte_sum(s)
    }
}

/// The integrity digest of `s`: both sums taken modulo 2^64, each written as
/// eight big-endian bytes. It detects corruption, not tampering.
#[verifier::opaque]
pub open spec fn digest_of(s: Seq<u8>) -> Seq<u8> {
    be64((byte_sum(s) % lane_modulus()) as u64) + be64((running_sum(s) % lane_modulus()) as u64)
}

/// A digest is sixteen bytes long.
pub proof fn lemma_digest_len(s: Seq<u8>)
    ensures
        digest_of(s).len() == 16,
{
    reveal(digest_of);
}

proof fn lemma_byte_sum_nonneg(s: Seq<u8>)
    ensures
        byte_sum(s) >= 0,
    decreases s.len(),
{
    if s.len() > 0 {
        lemma_byte_sum_nonneg(s.drop_last());
    }
}

proof fn lemma_byte_sum_update(s: Seq<u8>, k: int, v: u8)
    requires
        0 <= k < s.len(),
    ensures
        byte_sum(s.update(k, v)) == byte_sum(s) - s[k] + v,
    decreases s.len(),
{
    let t = s.update(k, v);
    if k == s.len() - 1 {
        assert(t.drop_last() =~= s.drop_last());
    } else {
        assert(t.drop_last() =~= s.drop_last().update(k, v));
        lemma_byte_sum_update(s.drop_last(), k, v);
    }
}

proof fn lemma_mod_separates(x: int, y: int)
    requires
        x >= 0,
        y >= 0,
        x != y,
        -lane_modulus() < x - y < lane_modulus(),
    ensures
        x % lane_modulus() != y % lane_modulus(),
{
    let m = lane_modulus();
    vstd::arithmetic::div_mod::lemma_fundamental_div_mod(x, m);
    vstd::arithmetic::div_mod::lemma_fundamental_div_mod(y, m);
    if x % m == y % m {
        let q = x / m - y / m;
        assert(x - y == m * q) by (nonlinear_arith)
            requires
                x == m * (x / m) + x % m,
                y == m * (y / m) + y % m,
                x % m == y % m,
                q == x / m - y / m,
        ;
        assert(false) by (nonlinear_arith)
            requires
                x - y == m * q,
                x != y,
                -m < x - y < m,
                m > 0,
        ;
    }
}

/// Changing one byte of `s` always changes its digest.
pub proof fn lemma_digest_detects_byte_change(s: Seq<u8>, k: int, v: u8)
    requires
        0 <= k < s.len(),
        v != s[k],
    ensures
        digest_of(s.update(k, v)) != digest_of(s),
{
    reveal(digest_of);
    let t = s.update(k, v);
    let m = lane_modulus();
    lemma_byte_sum_update(s, k, v);
    lemma_byte_sum_nonneg(s);
    lemma_byte_sum_nonneg(t);
    lemma_mod_separates(byte_sum(t), byte_sum(s));
    let a = (byte_sum(s) % m) as u64;
    let b = (byte_sum(t) % m) as u64;
    lemma_be64_round_trip(a);
    lemma_be64_round_trip(b);
    if digest_of(t) == digest_of(s) {
        assert(digest_of(t).subrange(0, 8) =~= be64(b));
        assert(digest_of(s).subrange(0, 8) =~= be64(a));
        assert(be64(a) == be64(b));
    }
}

proof fn lemma_wrapping_step(acc: u64, total: int, x: int)
    requires
        total >= 0,
        0 <= x < lane_modulus(),
        acc == total % lane_modulus(),
    ensures
        acc.wrapping_add(x as u64) == (total + x) % lane_modulus(),
{
    let m = lane_modulus();
    vstd::arithmetic::div_mod::lemma_add_mod_noop(total, x, m);
    vstd::arithmetic::div_mod::lemma_small_mod(x as nat, m as nat);
    if acc + x >= m {
        assert((acc + x) % m == acc + x - m) by {
            vstd::arithmetic::div_mod::lemma_small_mod((acc + x - m) as nat, m as nat);
            vstd::arithmetic::div_mod::lemma_mod_add_multiples_vanish(acc + x - m, m);
        }
    } else {
        vstd::arithmetic::div_mod::lemma_small_mod((acc + x) as nat, m as nat);
    }
}

/// Computes the integrity digest of the first `n` bytes of `s`.
pub fn digest(s: &[u8], n: usize) -> (r: Vec<u8>)
    requires
        n <= s@.len(),
    ensures
        r@ == digest_of(s@.take(n as int)),
        r@.len() == 16,
{
    let mut a: u64 = 0;
    let mut b: u64 = 0;
    let mut i: usize = 0;
    while i < n
        invariant
            i <= n <= s@.len(),
            a == byte_sum(s@.take(i as int)) % lane_modulus(),
            b == running_sum(s@.take(i as int)) % lane_modulus(),
        decreases n - i,
    {
        let ghost prefix = s@.take(i as int);
        let ghost next = s@.take(i + 1);
        proof {
            assert(next.drop_last() =~= prefix);
            lemma_byte_sum_nonneg(prefix);
            lemma_byte_sum_nonneg(next);
            lemma_running_sum_nonneg(prefix);
            lemma_wrapping_step(a, byte_sum(prefix), s@[i as int] as int);
        }
        a = a.wrapping_add(s[i] as u64);
        proof {
            let m = lane_modulus();
            vstd::arithmetic::div_mod::lemma_mod_bound(byte_sum(next), m);
            lemma_wrapping_step(b, running_sum(prefix), a as int);
            vstd::arithmetic::div_mod::lemma_add_mod_noop(running_sum(prefix), byte_sum(next), m);
            vstd::arithmetic::div_mod::lemma_add_mod_noop(running_sum(prefix), a as int, m);
            vstd::arithmetic::div_mod::lemma_mod_twice(byte_sum(next), m);
        }
        b = b.wrapping_add(a);
        i = i + 1;
    }
    let mut out: Vec<u8> = Vec::new();
    push_be64(&mut out, a);
    push_be64(&mut out, b);
    proof {
        reveal(digest_of);
    }
    out
}

proof fn lemma_running_sum_nonneg(s: Seq<u8>)
    ensures
        running_sum(s) >= 0,
    decreases s.len(),
{
    lemma_byte_sum_nonneg(s);
    if s.len() > 0 {
        lemma_running_sum_nonneg(s.drop_last());
    }
}

/// A copy of the bytes of `s` from `lo` up to `hi`.
pub fn copy_range(s: &[u8], lo: usize, hi: usize) -> (r: Vec<u8>)
    requires
        lo <= hi <= s@.len(),
    ensures
        r@ == s@.subrange(lo as int, hi as int),
{
    let mut out: Vec<u8> = Vec::new();
    let mut i: usize = lo;
    while i < hi
        invariant
            lo <= i <= hi <= s@.len(),
            out@ == s@.subrange(lo as int, i as int),
        decreases hi - i,
    {
        out.push(s[i]);
        i = i + 1;
        proof {
            assert(out@ =~= s@.subrange(lo as int, i as int));
        }
    }
    out
}

/// Compares two byte strings in time that depends on their lengths only.
pub fn bytes_eq(a: &[u8], b: &[u8]) -> (r: bool)
    ensures
        r == (a@ == b@),
{
    if a.len() != b.len() {
        return false;
    }
    let mut diff: u8 = 0;
    let mut i: usize = 0;
    while i < a.len()
        invariant
            i <= a@.len() == b@.len(),
            (diff == 0) == (forall|j: int| 0 <= j < i ==> a@[j] == b@[j]),
        decreases a@.len() - i,
    {
        let x = a[i];
        let y = b[i];
        let d = diff;
        assert(((d | (x ^ y)) == 0u8) == (d == 0u8 && x == y)) by (bit_vector);
        diff = diff | (x ^ y);
        i = i + 1;
    }
    if diff == 0 {
        assert(a@ =~= b@);
        true
    } else {
        false
    }
}

/// The sixteen big-endian bytes of `x`.
pub open spec fn be128(x: u128) -> Seq<u8> {
    be64((x >> 64u128) as u64) + be64(x as u64)
}

/// The value of the sixteen bytes of `s` that start at `at`.
pub open spec fn be128_at(s: Seq<u8>, at: int) -> u128 {
    ((be64_at(s, at) as u128) << 64u128) | (be64_at(s, at + 8) as u128)
}

/// Reading back the bytes of a 128-bit integer gives the integer.
pub proof fn lemma_be128_round_trip(x: u128)
    ensures
        be128_at(be128(x), 0) == x,
{
    let hi = (x >> 64u128) as u64;
    let lo = x as u64;
    lemma_be64_round_trip(hi);
    lemma_be64_round_trip(lo);
    let b = be128(x);
    assert(b.subrange(0, 8) =~= be64(hi));
    assert(b.subrange(8, 16) =~= be64(lo));
    assert(be64_at(b, 0) == be64_at(be64(hi), 0));
    assert(be64_at(b, 8) == be64_at(be64(lo), 0));
    assert((((x >> 64u128) as u64 as u128) << 64u128) | (x as u64 as u128) == x) by (bit_vector);
}

/// Encodes `x` as sixteen big-endian bytes at the end of `out`.
pub fn push_be128(out: &mut Vec<u8>, x: u128)
    ensures
        final(out)@ == old(out)@ + be128(x),
{
    push_be64(out, (x >> 64u128) as u64);
    push_be64(out, x as u64);
    assert(final(out)@ =~= old(out)@ + be128(x));
}

/// Reads the big-endian 64-bit integer at `at`.
pub fn read_be64(s: &[u8], at: usize) -> (r: u64)
    requires
        at + 8 <= s@.len(),
    ensures
        r == be64_at(s@, at as int),
{
    ((s[at] as u64) << 56u64) | ((s[at + 1] as u64) << 48u64) | ((s[at + 2] as u64) << 40u64)
        | ((s[at + 3] as u64) << 32u64) | ((s[at + 4] as u64) << 24u64) | ((s[at + 5] as u64)
        << 16u64) | ((s[at + 6] as u64) << 8u64) | (s[at + 7] as u64)
}

/// Reads the big-endian 128-bit integer at `at`.
pub fn read_be128(s: &[u8], at: usize) -> (r: u128)
    requires
        at + 16 <= s@.len(),
    ensures
        r == be128_at(s@, at as int),
{
    let n = s.len();
    let hi = read_be64(s, at);
    let lo = read_be64(s, at + 8);
    ((hi as u128) << 64u128) | (lo as u128)
}

/// Appends the bytes of `s` to `out`.
pub fn append_bytes(out: &mut Vec<u8>, s: &[u8])
    ensures
        final(out)@ == old(out)@ + s@,
{
    let ghost start = out@;
    let mut i: usize = 0;
    while i < s.len()
        invariant
            i <= s@.len(),
            out@ == start + s@.take(i as int),
        decreases s@.len() - i,
    {
        out.push(s[i]);
        i = i + 1;
        proof {
            assert(out@ =~= start + s@.take(i as int));
        }
    }
    assert(s@.take(s@.len() as int) =~= s@);
}

/// Eight bytes are the encoding of their own value.
pub proof fn lemma_be64_of_value(s: Seq<u8>, at: int)
    requires
        0 <= at,
        at + 8 <= s.len(),
    ensures
        be64(be64_at(s, at)) == s.subrange(at, at + 8),
{
    let (b0, b1, b2, b3) = (s[at], s[at + 1], s[at + 2], s[at + 3]);
    let (b4, b5, b6, b7) = (s[at + 4], s[at + 5], s[at + 6], s[at + 7]);
    let v = be64_at(s, at);
    assert((v >> 56u64) as u8 == b0 && (v >> 48u64) as u8 == b1 && (v >> 40u64) as u8 == b2
        && (v >> 32u64) as u8 == b3 && (v >> 24u64) as u8 == b4 && (v >> 16u64) as u8 == b5
        && (v >> 8u64) as u8 == b6 && v as u8 == b7) by (bit_vector)
        requires
            v == ((b0 as u64) << 56u64) | ((b1 as u64) << 48u64) | ((b2 as u64) << 40u64) | ((
            b3 as u64) << 32u64) | ((b4 as u64) << 24u64) | ((b5 as u64) << 16u64) | ((
            b6 as u64) << 8u64) | (b7 as u64),
    ;
    assert(be64(v) =~= s.subrange(at, at + 8));
}

/// Sixteen bytes are the encoding of their own value.
pub proof fn lemma_be128_of_value(s: Seq<u8>, at: int)
    requires
        0 <= at,
        at + 16 <= s.len(),
    ensures
        be128(be128_at(s, at)) == s.subrange(at, at + 16),
{
    let hi = be64_at(s, at);
    let lo = be64_at(s, at + 8);
    let v = be128_at(s, at);
    assert((v >> 64u128) as u64 == hi && v as u64 == lo) by (bit_vector)
        requires
            v == ((hi as u128) << 64u128) | (lo as u128),
    ;
    lemma_be64_of_value(s, at);
    lemma_be64_of_value(s, at + 8);
    assert(be128(v) =~= s.subrange(at, at + 16));
}

/// Reading back a 32-bit integer as signed gives the signed integer it
/// was made from.
pub proof fn lemma_i32_round_trip(c: i32)
    ensures
        ((c as u32) as i32) == c,
{
    assert(((c as u32) as i32) == c) by (bit_vector);
}

/// A byte field: its length, then its bytes.
pub open spec fn field_bytes(x: Seq<u8>) -> Seq<u8> {
    be32(x.len() as u32) + x
}

/// A length-prefixed field read from the front of `s`, and what follows it.
pub open spec fn take_field(s: Seq<u8>) -> Option<(Seq<u8>, Seq<u8>)> {
    if s.len() < 4 {
        None
    } else {
        let n = be32_at(s, 0) as int;
        if s.len() - 4 < n {
            None
        } else {
            Some((s.subrange(4, 4 + n), s.subrange(4 + n, s.len() as int)))
        }
    }
}

/// A 128-bit integer read from the front of `s`, and what follows it.
pub open spec fn take_u128(s: Seq<u8>) -> Option<(u128, Seq<u8>)> {
    if s.len() < 16 {
        None
    } else {
        Some((be128_at(s, 0), s.subrange(16, s.len() as int)))
    }
}

/// A 64-bit integer read from the front of `s`, and what follows it.
pub open spec fn take_u64(s: Seq<u8>) -> Option<(u64, Seq<u8>)> {
    if s.len() < 8 {
        None
    } else {
        Some((be64_at(s, 0), s.subrange(8, s.len() as int)))
    }
}

pub proof fn lemma_take_field(x: Seq<u8>, t: Seq<u8>)
    requires
        x.len() <= u32::MAX,
    ensures
        take_field(field_bytes(x) + t) == Some((x, t)),
{
    let s = field_bytes(x) + t;
    let l = be32(x.len() as u32);
    lemma_be32_round_trip(x.len() as u32);
    assert(s[0] == l[0] && s[1] == l[1] && s[2] == l[2] && s[3] == l[3]);
    assert(s.subrange(4, 4 + x.len() as int) =~= x);
    assert(s.subrange(4 + x.len() as int, s.len() as int) =~= t);
}

pub proof fn lemma_take_u128(x: u128, t: Seq<u8>)
    ensures
        take_u128(be128(x) + t) == Some((x, t)),
{
    let s = be128(x) + t;
    let h = be128(x);
    lemma_be128_round_trip(x);
    assert(forall|i: int| 0 <= i < 16 ==> s[i] == h[i]);
    assert(be128_at(s, 0) == be128_at(h, 0));
    assert(s.subrange(16, s.len() as int) =~= t);
}

pub proof fn lemma_take_u64(x: u64, t: Seq<u8>)
    ensures
        take_u64(be64(x) + t) == Some((x, t)),
{
    let s = be64(x) + t;
    let h = be64(x);
    lemma_be64_round_trip(x);
    assert(forall|i: int| 0 <= i < 8 ==> s[i] == h[i]);
    assert(be64_at(s, 0) == be64_at(h, 0));
    assert(s.subrange(8, s.len() as int) =~= t);
}

/// Reads a length-prefixed field at `at`; gives it and the position after it.
pub fn take_field_at(s: &[u8], at: usize) -> (r: Option<(Vec<u8>, usize)>)
    requires
        at <= s@.len(),
    ensures
        match take_field(s@.subrange(at as int, s@.len() as int)) {
            Some((x, t)) => r matches Some((v, next)) && v@ == x && at <= next <= s@.len()
                && s@.subrange(next as int, s@.len() as int) == t,
            None => r is None,
        },
{
    let ghost rest = s@.subrange(at as int, s@.len() as int);
    if s.len() - at < 4 {
        return None;
    }
    let n = read_be32(s, at) as usize;
    assert(be32_at(rest, 0) == be32_at(s@, at as int));
    if s.len() - at - 4 < n {
        return None;
    }
    let v = copy_range(s, at + 4, at + 4 + n);
    assert(v@ =~= rest.subrange(4, 4 + n as int));
    assert(s@.subrange((at + 4 + n) as int, s@.len() as int) =~= rest.subrange(
        4 + n as int,
        rest.len() as int,
    ));
    Some((v, at + 4 + n))
}

/// Reads the 128-bit integer at `at`; gives it and the position after it.
pub fn take_u128_at(s: &[u8], at: usize) -> (r: Option<(u128, usize)>)
    requires
        at <= s@.len(),
    ensures
        match take_u128(s@.subrange(at as int, s@.len() as int)) {
            Some((x, t)) => r matches Some((v, next)) && v == x && at <= next <= s@.len()
                && s@.subrange(next as int, s@.len() as int) == t,
            None => r is None,
        },
{
    let ghost rest = s@.subrange(at as int, s@.len() as int);
    if s.len() - at < 16 {
        return None;
    }
    let v = read_be128(s, at);
    assert(be128_at(rest, 0) == be128_at(s@, at as int));
    assert(s@.subrange((at + 16) as int, s@.len() as int) =~= rest.subrange(16, rest.len() as int));
    Some((v, at + 16))
}

/// Reads the 64-bit integer at `at`; gives it and the position after it.
pub fn take_u64_at(s: &[u8], at: usize) -> (r: Option<(u64, usize)>)
    requires
        at <= s@.len(),
    ensures
        match take_u64(s@.subrange(at as int, s@.len() as int)) {
            Some((x, t)) => r matches Some((v, next)) && v == x && at <= next <= s@.len()
                && s@.subrange(next as int, s@.len() as int) == t,
            None => r is None,
        },
{
    let ghost rest = s@.subrange(at as int, s@.len() as int);
    if s.len() - at < 8 {
        return None;
    }
    let v = read_be64(s, at);
    assert(be64_at(rest, 0) == be64_at(s@, at as int));
    assert(s@.subrange((at + 8) as int, s@.len() as int) =~= rest.subrange(8, rest.len() as int));
    Some((v, at + 8))
}

/// Appends `x` as a length-prefixed field.
pub fn push_field(out: &mut Vec<u8>, x: &[u8])
    requires
        x@.len() <= u32::MAX,
    ensures
        final(out)@ == old(out)@ + field_bytes(x@),
{
    push_be32(out, x.len() as u32);
    append_bytes(out, x);
    assert(final(out)@ =~= old(out)@ + field_bytes(x@));
}

/// A byte read from the front of `s`, and what follows it.
pub open spec fn take_byte(s: Seq<u8>) -> Option<(u8, Seq<u8>)> {
    if s.len() < 1 {
        None
    } else {
        Some((s[0], s.subrange(1, s.len() as int)))
    }
}

/// A 32-bit integer read from the front of `s`, and what follows it.
pub open spec fn take_u32(s: Seq<u8>) -> Option<(u32, Seq<u8>)> {
    if s.len() < 4 {
        None
    } else {
        Some((be32_at(s, 0), s.subrange(4, s.len() as int)))
    }
}

pub proof fn lemma_take_byte(x: u8, t: Seq<u8>)
    ensures
        take_byte(seq![x] + t) == Some((x, t)),
{
    assert((seq![x] + t).subrange(1, (seq![x] + t).len() as int) =~= t);
}

pub proof fn lemma_take_u32(x: u32, t: Seq<u8>)
    ensures
        take_u32(be32(x) + t) == Some((x, t)),
{
    let s = be32(x) + t;
    let h = be32(x);
    lemma_be32_round_trip(x);
    assert(s[0] == h[0] && s[1] == h[1] && s[2] == h[2] && s[3] == h[3]);
    assert(s.subrange(4, s.len() as int) =~= t);
}

/// Reads the byte at `at`; gives it and the position after it.
pub fn take_byte_at(s: &[u8], at: usize) -> (r: Option<(u8, usize)>)
    requires
        at <= s@.len(),
    ensures
        match take_byte(s@.subrange(at as int, s@.len() as int)) {
            Some((x, t)) => r matches Some((v, next)) && v == x && at <= next <= s@.len()
                && s@.subrange(next as int, s@.len() as int) == t,
            None => r is None,
        },
{
    let ghost rest = s@.subrange(at as int, s@.len() as int);
    if s.len() - at < 1 {
        return None;
    }
    assert(s@.subrange((at + 1) as int, s@.len() as int) =~= rest.subrange(1, rest.len() as int));
    Some((s[at], at + 1))
}

/// Reads the 32-bit integer at `at`; gives it and the position after it.
pub fn take_u32_at(s: &[u8], at: usize) -> (r: Option<(u32, usize)>)
    requires
        at <= s@.len(),
    ensures
        match take_u32(s@.subrange(at as int, s@.len() as int)) {
            Some((x, t)) => r matches Some((v, next)) && v == x && at <= next <= s@.len()
                && s@.subrange(next as int, s@.len() as int) == t,
            None => r is None,
        },
{
    let ghost rest = s@.subrange(at as int, s@.len() as int);
    if s.len() - at < 4 {
        return None;
    }
    let v = read_be32(s, at);
    assert(be32_at(rest, 0) == be32_at(s@, at as int));
    assert(s@.subrange((at + 4) as int, s@.len() as int) =~= rest.subrange(4, rest.len() as int));
    Some((v, at + 4))
}

} // verus!
