//! Bits of byte sequences, least significant bit of every byte first.

use vstd::arithmetic::power2::{lemma2_to64, lemma_pow2_adds, lemma_pow2_unfold, pow2};
use vstd::prelude::*;

verus! {

/// Bit `t` (0 is the least significant) of the byte `b`.
pub open spec fn byte_bit(b: u8, t: u8) -> bool {
    (b >> t) & 1u8 == 1u8
}

/// Bit `k` of the byte sequence `s`: bit `k % 8` of byte `k / 8`.
pub open spec fn bit_at(s: Seq<u8>, k: int) -> bool {
    byte_bit(s[k / 8], (k % 8) as u8)
}

/// All `8 * s.len()` bits of `s`, in stream order.
pub open spec fn stream_bits(s: Seq<u8>) -> Seq<bool> {
    Seq::new(8 * s.len(), |k: int| bit_at(s, k))
}

/// Splitting a bit index into its byte and its bit within the byte.
pub proof fn lemma_split_index(k: int, j: int, t: int)
    requires
        k == 8 * j + t,
        0 <= t < 8,
    ensures
        k / 8 == j,
        k % 8 == t,
{
}

} // verus!

verus! {

/// The zero byte has no bit set.
pub proof fn lemma_zero_byte(t: u8)
    by (bit_vector)
    requires
        t < 8,
    ensures
        !byte_bit(0u8, t),
{
}

/// Reading across a byte boundary: the high bits of `x` followed by the low bits of `y`.
pub proof fn lemma_join_bytes(x: u8, y: u8, c: u8, t: u8)
    by (bit_vector)
    requires
        1 <= c < 8,
        t < 8,
    ensures
        byte_bit((x >> c) | (y << ((8 - c) as u8)), t) == if t < 8 - c {
            byte_bit(x, (t + c) as u8)
        } else {
            byte_bit(y, (t - (8 - c)) as u8)
        },
{
}

/// Reading the last, partial byte when it lies within one stored byte.
pub proof fn lemma_take_within(x: u8, c: u8, r: u8, t: u8)
    by (bit_vector)
    requires
        1 <= r <= 8,
        r + c <= 8,
        t < 8,
    ensures
        byte_bit((x >> c) & (0xffu8 >> ((8 - r) as u8)), t) == (t < r && byte_bit(x, (t + c) as u8)),
{
}

/// Reading the last, partial byte when it spans two stored bytes.
pub proof fn lemma_take_across(x: u8, y: u8, c: u8, m: u8, t: u8)
    by (bit_vector)
    requires
        1 <= c < 8,
        1 <= m < 8,
        m < c,
        t < 8,
    ensures
        byte_bit((x >> c) | ((y & (0xffu8 >> ((8 - m) as u8))) << ((8 - c) as u8)), t) == if t < 8
            - c {
            byte_bit(x, (t + c) as u8)
        } else if t < 8 - c + m {
            byte_bit(y, (t - (8 - c)) as u8)
        } else {
            false
        },
{
}

/// Writing the low bits of `x` above the `c` bits already in `p`.
pub proof fn lemma_put_low(p: u8, x: u8, c: u8, r: u8, t: u8)
    by (bit_vector)
    requires
        c < 8,
        1 <= r <= 8,
        t < 8,
        p >> c == 0,
    ensures
        byte_bit(p | ((x & (0xffu8 >> ((8 - r) as u8))) << c), t) == if t < c {
            byte_bit(p, t)
        } else if t < c + r {
            byte_bit(x, (t - c) as u8)
        } else {
            false
        },
{
}

} // verus!

verus! {

/// `out` holds the bits `b` in order, the unused high bits of its last byte being zero.
pub open spec fn packs(out: Seq<u8>, b: Seq<bool>) -> bool {
    &&& out.len() == (b.len() + 7) / 8
    &&& forall|k: int| 0 <= k < 8 * out.len() ==> bit_at(out, k) == (k < b.len() && b[k])
}

/// Bit `8 * j + t` of `s` is bit `t` of byte `j`.
pub proof fn lemma_bit_at_byte(s: Seq<u8>, j: int, t: int)
    requires
        0 <= t < 8,
    ensures
        bit_at(s, 8 * j + t) == byte_bit(s[j], t as u8),
{
    lemma_split_index(8 * j + t, j, t);
}

/// Shifting by zero keeps a byte.
pub proof fn lemma_shift_zero(x: u8)
    by (bit_vector)
    ensures
        x >> 0u8 == x,
        0u8 | x == x,
        0u8 >> 0u8 == 0u8,
{
}

/// Writing all of `x` above the `c` bits already in `p`.
pub proof fn lemma_put_all(p: u8, x: u8, c: u8, t: u8)
    by (bit_vector)
    requires
        c < 8,
        t < 8,
        p >> c == 0,
    ensures
        byte_bit(p | (x << c), t) == if t < c {
            byte_bit(p, t)
        } else {
            byte_bit(x, (t - c) as u8)
        },
{
}

/// The top `c` bits of `x`, moved to the bottom of an empty byte.
pub proof fn lemma_put_rest(x: u8, c: u8, t: u8)
    by (bit_vector)
    requires
        1 <= c < 8,
        t < 8,
    ensures
        byte_bit(0u8 | (x >> ((8 - c) as u8)), t) == (t < c && byte_bit(x, (t + 8 - c) as u8)),
        (0u8 | (x >> ((8 - c) as u8))) >> c == 0,
{
}

/// The top bits of `x`, cut to `m` bits, moved to the bottom of an empty byte.
pub proof fn lemma_put_rest_masked(x: u8, c: u8, m: u8, t: u8)
    by (bit_vector)
    requires
        1 <= c < 8,
        1 <= m < 8,
        t < 8,
    ensures
        byte_bit(0u8 | ((x >> ((8 - c) as u8)) & (0xffu8 >> ((8 - m) as u8))), t) == (t < m && t
            < c && byte_bit(x, (t + 8 - c) as u8)),
        (0u8 | ((x >> ((8 - c) as u8)) & (0xffu8 >> ((8 - m) as u8)))) >> m == 0,
{
}

/// After writing `r` low bits of `x` above `c` bits, the bits above `c + r` stay zero.
pub proof fn lemma_put_low_high_zero(p: u8, x: u8, c: u8, r: u8)
    by (bit_vector)
    requires
        c < 8,
        1 <= r <= 8,
        c + r < 8,
        p >> c == 0,
    ensures
        (p | ((x & (0xffu8 >> ((8 - r) as u8))) << c)) >> ((c + r) as u8) == 0,
{
}

} // verus!

verus! {

/// Storing byte `i` of `s`, whose bits `0 .. r` come from `src` at `base + 8 * i`.
pub proof fn lemma_store_byte(s: Seq<u8>, i: int, v: u8, src: Seq<u8>, base: int, r: int)
    requires
        0 <= i < s.len(),
        1 <= r <= 8,
        forall|k: int| 0 <= k < 8 * i ==> bit_at(s, k) == bit_at(src, base + k),
        forall|t: u8| t < 8 ==> byte_bit(v, t) == (t < r && bit_at(src, base + 8 * i + t)),
    ensures
        forall|k: int|
            0 <= k < 8 * (i + 1) ==> bit_at(s.update(i, v), k) == (k < 8 * i + r && bit_at(
                src,
                base + k,
            )),
{
    let s2 = s.update(i, v);
    assert forall|k: int| 0 <= k < 8 * (i + 1) implies bit_at(s2, k) == (k < 8 * i + r && bit_at(
        src,
        base + k,
    )) by {
        if k < 8 * i {
            lemma_split_index(k, k / 8, k % 8);
            assert(bit_at(s2, k) == bit_at(s, k));
        } else {
            lemma_split_index(k, i, k - 8 * i);
            let t = (k - 8 * i) as u8;
            assert(byte_bit(v, t) == (t < r && bit_at(src, base + 8 * i + t)));
        }
    }
}

} // verus!

verus! {

/// A byte whose bits from `c` on are zero has no bit set at or above `c`.
pub proof fn lemma_high_zero(x: u8, c: u8, t: u8)
    by (bit_vector)
    requires
        c <= t < 8,
        x >> c == 0,
    ensures
        !byte_bit(x, t),
{
}

} // verus!

verus! {

/// Bit `k` of the bits `old` (its first `pos0` bits) followed by the bits of `s`.
pub open spec fn src_bit(old: Seq<u8>, pos0: int, s: Seq<u8>, k: int) -> bool {
    if k < pos0 {
        bit_at(old, k)
    } else {
        bit_at(s, k - pos0)
    }
}

/// Extends a correct prefix of `b2` by byte `j`.
pub proof fn lemma_extend_byte(
    b1: Seq<u8>,
    b2: Seq<u8>,
    j: int,
    n2: int,
    old: Seq<u8>,
    pos0: int,
    s: Seq<u8>,
)
    requires
        0 <= j < b2.len(),
        j <= b1.len(),
        8 * j <= n2 <= 8 * j + 8,
        forall|jj: int| 0 <= jj < j ==> b2[jj] == b1[jj],
        forall|k: int| 0 <= k < 8 * j ==> bit_at(b1, k) == src_bit(old, pos0, s, k),
        forall|t: u8| t < 8 && 8 * j + t < n2 ==> byte_bit(b2[j], t) == src_bit(old, pos0, s, 8 * j + t),
    ensures
        forall|k: int| 0 <= k < n2 ==> bit_at(b2, k) == src_bit(old, pos0, s, k),
{
    assert forall|k: int| 0 <= k < n2 implies bit_at(b2, k) == src_bit(old, pos0, s, k) by {
        if k < 8 * j {
            lemma_split_index(k, k / 8, k % 8);
            assert(bit_at(b2, k) == bit_at(b1, k));
        } else {
            lemma_split_index(k, j, k - 8 * j);
            let t = (k - 8 * j) as u8;
            assert(byte_bit(b2[j], t) == src_bit(old, pos0, s, 8 * j + t));
        }
    }
}

} // verus!

verus! {

/// The number whose binary digits, least significant first, are `b`.
pub open spec fn bits_value(b: Seq<bool>) -> nat
    decreases b.len(),
{
    if b.len() == 0 {
        0
    } else {
        bits_value(b.drop_last()) + if b.last() {
            pow2((b.len() - 1) as nat)
        } else {
            0
        }
    }
}

/// A number of `n` binary digits is below `2^n`.
pub proof fn lemma_bits_value_bound(b: Seq<bool>)
    ensures
        bits_value(b) < pow2(b.len()),
    decreases b.len(),
{
    lemma2_to64();
    if b.len() > 0 {
        lemma_bits_value_bound(b.drop_last());
        lemma_pow2_unfold(b.len());
    }
}

/// The digits of `x` followed by those of `y`.
pub proof fn lemma_bits_value_concat(x: Seq<bool>, y: Seq<bool>)
    ensures
        bits_value(x + y) == bits_value(x) + pow2(x.len()) * bits_value(y),
    decreases y.len(),
{
    if y.len() == 0 {
        assert(x + y =~= x);
        assert(pow2(x.len()) * 0 == 0) by (nonlinear_arith);
    } else {
        let y1 = y.drop_last();
        assert((x + y).drop_last() =~= x + y1);
        lemma_bits_value_concat(x, y1);
        lemma_pow2_adds(x.len(), (y.len() - 1) as nat);
        let a = pow2(x.len()) as int;
        let p = pow2((y.len() - 1) as nat) as int;
        let d: int = if y.last() { 1 } else { 0 };
        assert(a * bits_value(y1) + d * (a * p) == a * (bits_value(y1) + d * p)) by (nonlinear_arith);
        assert((x + y).last() == y.last());
        assert(pow2(((x + y).len() - 1) as nat) == a * p);
        assert(bits_value(y) == bits_value(y1) + d * p);
        assert(bits_value(x + y) == bits_value(x + y1) + d * (a * p));
    }
}

/// Digits that are all zero make zero.
pub proof fn lemma_bits_value_zero(b: Seq<bool>)
    requires
        forall|k: int| 0 <= k < b.len() ==> !b[k],
    ensures
        bits_value(b) == 0,
    decreases b.len(),
{
    if b.len() > 0 {
        lemma_bits_value_zero(b.drop_last());
    }
}

proof fn lemma_byte_sum(v: u8)
    by (bit_vector)
    ensures
        v as u32 == (if (v >> 0u8) & 1u8 == 1u8 { 1u32 } else { 0u32 }) + (if (v >> 1u8) & 1u8
            == 1u8 { 2u32 } else { 0u32 }) + (if (v >> 2u8) & 1u8 == 1u8 { 4u32 } else { 0u32 })
            + (if (v >> 3u8) & 1u8 == 1u8 { 8u32 } else { 0u32 }) + (if (v >> 4u8) & 1u8 == 1u8 {
            16u32
        } else {
            0u32
        }) + (if (v >> 5u8) & 1u8 == 1u8 { 32u32 } else { 0u32 }) + (if (v >> 6u8) & 1u8 == 1u8 {
            64u32
        } else {
            0u32
        }) + (if (v >> 7u8) & 1u8 == 1u8 { 128u32 } else { 0u32 }),
{
}

/// The eight bits of a byte make the byte.
pub proof fn lemma_byte_value(v: u8)
    ensures
        bits_value(stream_bits(seq![v])) == v,
{
    let b = stream_bits(seq![v]);
    lemma2_to64();
    lemma_byte_sum(v);
    assert forall|t: int| 0 <= t < 8 implies b[t] == byte_bit(v, t as u8) by {
        lemma_bit_at_byte(seq![v], 0, t);
    }
    reveal_with_fuel(bits_value, 9);
    assert(b.take(7) =~= b.drop_last());
    assert(b.take(6) =~= b.take(7).drop_last());
    assert(b.take(5) =~= b.take(6).drop_last());
    assert(b.take(4) =~= b.take(5).drop_last());
    assert(b.take(3) =~= b.take(4).drop_last());
    assert(b.take(2) =~= b.take(3).drop_last());
    assert(b.take(1) =~= b.take(2).drop_last());
    assert(b.take(0) =~= b.take(1).drop_last());
}

/// The bits of a byte sequence split at its last byte.
pub proof fn lemma_stream_bits_push(s: Seq<u8>, v: u8)
    ensures
        stream_bits(s.push(v)) =~= stream_bits(s) + stream_bits(seq![v]),
{
    let a = stream_bits(s.push(v));
    let b = stream_bits(s) + stream_bits(seq![v]);
    assert forall|k: int| 0 <= k < a.len() implies a[k] == b[k] by {
        lemma_split_index(k, k / 8, k % 8);
        if k >= 8 * s.len() {
            lemma_split_index(k - 8 * s.len(), 0, k % 8);
        }
    }
}

} // verus!

verus! {

/// The first `(n + 7) / 8` bytes of `s` with every bit from bit `n` on cleared.
pub open spec fn masked(s: Seq<u8>, n: nat) -> Seq<u8> {
    Seq::new(
        (n + 7) / 8,
        |i: int|
            if 8 * (i + 1) <= n {
                s[i]
            } else {
                s[i] & (0xffu8 >> ((8 - n % 8) as u8))
            },
    )
}

proof fn lemma_byte_ext_bv(x: u8, y: u8)
    by (bit_vector)
    requires
        ((x >> 0u8) & 1u8 == 1u8) == ((y >> 0u8) & 1u8 == 1u8),
        ((x >> 1u8) & 1u8 == 1u8) == ((y >> 1u8) & 1u8 == 1u8),
        ((x >> 2u8) & 1u8 == 1u8) == ((y >> 2u8) & 1u8 == 1u8),
        ((x >> 3u8) & 1u8 == 1u8) == ((y >> 3u8) & 1u8 == 1u8),
        ((x >> 4u8) & 1u8 == 1u8) == ((y >> 4u8) & 1u8 == 1u8),
        ((x >> 5u8) & 1u8 == 1u8) == ((y >> 5u8) & 1u8 == 1u8),
        ((x >> 6u8) & 1u8 == 1u8) == ((y >> 6u8) & 1u8 == 1u8),
        ((x >> 7u8) & 1u8 == 1u8) == ((y >> 7u8) & 1u8 == 1u8),
    ensures
        x == y,
{
}

/// Two bytes with the same eight bits are equal.
pub proof fn lemma_byte_ext(x: u8, y: u8)
    requires
        forall|t: u8| t < 8 ==> byte_bit(x, t) == byte_bit(y, t),
    ensures
        x == y,
{
    assert(byte_bit(x, 0) == byte_bit(y, 0));
    assert(byte_bit(x, 1) == byte_bit(y, 1));
    assert(byte_bit(x, 2) == byte_bit(y, 2));
    assert(byte_bit(x, 3) == byte_bit(y, 3));
    assert(byte_bit(x, 4) == byte_bit(y, 4));
    assert(byte_bit(x, 5) == byte_bit(y, 5));
    assert(byte_bit(x, 6) == byte_bit(y, 6));
    assert(byte_bit(x, 7) == byte_bit(y, 7));
    lemma_byte_ext_bv(x, y);
}

/// The bytes that pack the first `n` bits of `s` are `s` cut to `(n + 7) / 8`
/// bytes, with every bit from bit `n` on cleared.
pub proof fn lemma_packs_masked(t: Seq<u8>, s: Seq<u8>, n: nat)
    requires
        n <= 8 * s.len(),
        packs(t, stream_bits(s).take(n as int)),
    ensures
        t == masked(s, n),
{
    let m = masked(s, n);
    assert forall|i: int| 0 <= i < t.len() implies t[i] == m[i] by {
        assert forall|b: u8| b < 8 implies byte_bit(t[i], b) == byte_bit(m[i], b) by {
            let k = 8 * i + b;
            lemma_bit_at_byte(t, i, b as int);
            lemma_bit_at_byte(s, i, b as int);
            if 8 * (i + 1) > n {
                let r = (n % 8) as u8;
                lemma_split_index(n as int, i, r as int);
                lemma_shift_zero(s[i]);
                lemma_take_within(s[i], 0, r, b);
            }
        }
        lemma_byte_ext(t[i], m[i]);
    }
    assert(t =~= m);
}

} // verus!
