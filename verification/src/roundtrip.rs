//! What decoding gives back of what encoding wrote.

use crate::bits::{
    bits_value, lemma_bits_value_bound, lemma_bits_value_concat, lemma_bits_value_zero, packs,
    stream_bits,
};
use crate::lzw::{
    dec_add, dec_begin, dec_loop, emit, enc_inv, enc_run, enc_start, enc_step, encode_bits,
    fresh_dict, key_of, lemma_word_new, lemma_word_push, word_of, le4, le_value, lemma_enc_run_inv, lemma_pow2_steps, lemma_le_value_bits, read_code,
    root_char, root_words, spec_decode, start_dict, DecState, EncState,
};
use vstd::arithmetic::power2::{lemma2_to64, pow2};
use vstd::prelude::*;

verus! {

/// Keys of words of more than one byte differ from the one-byte keys and from
/// each other unless byte and earlier code agree.
pub(crate) proof fn lemma_key(c: u16, p: u32, c2: u16, p2: u32)
    requires
        c < 256,
    ensures
        key_of(c, Some(p)) >= 0x10000,
        key_of(c, Some(p)) != key_of(256, Some(256)),
        key_of(c, Some(p)) != key_of(257, Some(257)),
        key_of(c, Some(p)) == key_of(c2, Some(p2)) ==> c == c2 && p == p2,
{
    let k = (p as int + 1) * 0x10000 + c as int;
    assert(0 <= k < 0x10000 * 0x100000001) by (nonlinear_arith)
        requires
            k == (p as int + 1) * 0x10000 + c as int,
            0 <= c < 256,
            0 <= p < 0x100000000,
    ;
    vstd::arithmetic::div_mod::lemma_fundamental_div_mod_converse(k, 0x10000, p as int + 1, c as int);
    let k256 = (256int + 1) * 0x10000 + 256;
    let k257 = (257int + 1) * 0x10000 + 257;
    vstd::arithmetic::div_mod::lemma_fundamental_div_mod_converse(k256, 0x10000, 257, 256);
    vstd::arithmetic::div_mod::lemma_fundamental_div_mod_converse(k257, 0x10000, 258, 257);
    let k2 = (p2 as int + 1) * 0x10000 + c2 as int;
    assert(0 <= k2 < 0x10000 * 0x100000001) by (nonlinear_arith)
        requires
            k2 == (p2 as int + 1) * 0x10000 + c2 as int,
            0 <= c2 < 0x10000,
            0 <= p2 < 0x100000000,
    ;
    vstd::arithmetic::div_mod::lemma_fundamental_div_mod_converse(k2, 0x10000, p2 as int + 1, c2 as int);
    assert(k < 0x10000000000000000);
    assert(k2 < 0x10000000000000000);
}

/// What the encoder's dictionary holds at every step.
pub open spec fn enc_words_inv(st: EncState) -> bool {
    &&& st.words.len() == st.size
    &&& forall|c: u64| c < 256 ==> #[trigger] st.map.contains_key(c) && st.map[c] == c
    &&& forall|j: int| 0 <= j < 256 ==> #[trigger] st.words[j] == seq![j as u8]
    &&& forall|j: int| 0 <= j < st.words.len() ==> #[trigger] st.words[j].len() > 0
    &&& forall|c: u16, p: u32|
        c < 256 && #[trigger] st.map.contains_key(key_of(c, Some(p))) ==> {
            let k = st.map[key_of(c, Some(p))];
            &&& 258 <= k < st.size
            &&& p < st.size
            &&& st.words[k as int] == st.words[p as int].push(c as u8)
        }
    &&& st.prefix matches Some(k) ==> k < st.size && k != 256 && k != 257
    &&& st.width == 9 || pow2((st.width - 1) as nat) <= st.size
}

pub(crate) proof fn lemma_root_words()
    ensures
        forall|j: int| 0 <= j < 256 ==> #[trigger] root_words()[j] == seq![j as u8],
        forall|j: int| 0 <= j < 258 ==> #[trigger] root_words()[j].len() > 0,
        root_words().len() == 258,
{
}

proof fn lemma_enc_step_words(st: EncState, c: u8)
    requires
        enc_inv(st),
        enc_words_inv(st),
    ensures
        enc_words_inv(enc_step(st, c)),
{
    let k = key_of(c as u16, st.prefix);
    lemma_root_words();
    lemma_pow2_steps(st.width as nat);
    vstd::arithmetic::power2::lemma_pow2_strictly_increases(st.width as nat, 20);
    if st.map.contains_key(k) {
        match st.prefix {
            None => {
                assert(k == c as u64);
            },
            Some(p) => {
                lemma_key(c as u16, p, 0, 0);
            },
        }
    } else {
        let st2 = enc_step(st, c);
        let size = (st.size + 1) as u32;
        let width = if size as int == pow2(st.width as nat) {
            (st.width + 1) as u32
        } else {
            st.width
        };
        if width != 20 {
            assert(st.map.contains_key(c as u64));
            assert(st.prefix is Some);
            let p0 = st.prefix->0;
            assert(k == key_of(c as u16, Some(p0)));
            assert(st2.map == st.map.insert(k, st.size));
            assert(st2.words == st.words.push(st.words[p0 as int].push(c)));
            assert forall|c2: u16, p2: u32|
                c2 < 256 && #[trigger] st2.map.contains_key(key_of(c2, Some(p2))) implies {
                let kk = st2.map[key_of(c2, Some(p2))];
                &&& 258 <= kk < st2.size
                &&& p2 < st2.size
                &&& st2.words[kk as int] == st2.words[p2 as int].push(c2 as u8)
            } by {
                lemma_key(c2, p2, c as u16, p0);
                lemma_key(c as u16, p0, c2, p2);
                if key_of(c2, Some(p2)) == k {
                    assert(c2 == c as u16 && p2 == p0);
                    assert(st2.map[k] == st.size);
                } else {
                    assert(st.map.contains_key(key_of(c2, Some(p2))));
                    assert(st2.map[key_of(c2, Some(p2))] == st.map[key_of(c2, Some(p2))]);
                }
            }
            assert forall|cc: u64| cc < 256 implies #[trigger] st2.map.contains_key(cc) && st2.map[cc]
                == cc by {
                lemma_key(c as u16, p0, 0, 0);
                assert(st.map.contains_key(cc));
                assert(k != cc);
            }
        } else {
            assert forall|c2: u16, p2: u32|
                c2 < 256 && #[trigger] st2.map.contains_key(key_of(c2, Some(p2))) implies false by {
                lemma_key(c2, p2, 0, 0);
            }
        }
    }
}

/// The encoder's dictionary invariant holds after any input.
pub proof fn lemma_enc_run_words(data: Seq<u8>)
    ensures
        enc_words_inv(enc_run(data)),
    decreases data.len(),
{
    lemma_root_words();
    if data.len() == 0 {
        assert forall|c2: u16, p2: u32|
            c2 < 256 && #[trigger] enc_start().map.contains_key(key_of(c2, Some(p2))) implies false by {
            lemma_key(c2, p2, 0, 0);
        }
    } else {
        lemma_enc_run_words(data.drop_last());
        lemma_enc_run_inv(data.drop_last());
        lemma_enc_step_words(enc_run(data.drop_last()), data.last());
    }
}

} // verus!

verus! {

/// `a` is where `b` starts.
pub open spec fn starts(a: Seq<bool>, b: Seq<bool>) -> bool {
    a.len() <= b.len() && b.take(a.len() as int) == a
}

pub(crate) proof fn lemma_run_step(x: Seq<u8>, n: int)
    requires
        0 <= n < x.len(),
    ensures
        enc_run(x.take(n + 1)) == enc_step(enc_run(x.take(n)), x[n]),
{
    assert(x.take(n + 1).drop_last() =~= x.take(n));
}

/// The encoder only ever adds bits after those it has written.
proof fn lemma_bits_grow(x: Seq<u8>, n: int, m: int)
    requires
        0 <= n <= m <= x.len(),
    ensures
        starts(enc_run(x.take(n)).bits, enc_run(x.take(m)).bits),
    decreases m - n,
{
    if n < m {
        lemma_bits_grow(x, n + 1, m);
        lemma_run_step(x, n);
        let a = enc_run(x.take(n)).bits;
        let b1 = enc_run(x.take(n + 1)).bits;
        let b2 = enc_run(x.take(m)).bits;
        assert(b1.take(a.len() as int) =~= a);
        assert(b2.take(a.len() as int) =~= b1.take(a.len() as int));
    } else {
        assert(enc_run(x.take(n)).bits.take(enc_run(x.take(n)).bits.len() as int) =~= enc_run(
            x.take(n),
        ).bits);
    }
}

proof fn lemma_le4_bv(v: u32)
    by (bit_vector)
    ensures
        (v & 0xff) as u64 + ((v >> 8u32) & 0xff) as u64 * 0x100 + ((v >> 16u32) & 0xff) as u64
            * 0x10000 + ((v >> 24u32) & 0xff) as u64 * 0x1000000 == v as u64,
        v & 0xff < 0x100,
        (v >> 8u32) & 0xff < 0x100,
        (v >> 16u32) & 0xff < 0x100,
        (v >> 24u32) & 0xff < 0x100,
{
}

/// The four little-endian bytes of `v` make `v`.
proof fn lemma_le4(v: u32)
    ensures
        le_value(le4(v)) == v,
{
    let s = le4(v);
    lemma2_to64();
    lemma_le4_bv(v);
    reveal_with_fuel(le_value, 5);
    assert(s.drop_last() =~= seq![s[0], s[1], s[2]]);
    assert(s.drop_last().drop_last() =~= seq![s[0], s[1]]);
    assert(s.drop_last().drop_last().drop_last() =~= seq![s[0]]);
    assert(s.drop_last().drop_last().drop_last().drop_last() =~= Seq::<u8>::empty());
    let s1 = seq![s[0]];
    let s2 = seq![s[0], s[1]];
    let s3 = seq![s[0], s[1], s[2]];
    assert(s1.drop_last() =~= Seq::<u8>::empty());
    assert(s2.drop_last() =~= s1);
    assert(s3.drop_last() =~= s2);
    assert(le_value(Seq::<u8>::empty()) == 0);
    assert(s1.last() == s[0] && s1.len() == 1);
    assert(le_value(s1) == le_value(s1.drop_last()) + s1.last() as nat * pow2(0));
    assert(le_value(s1) == s[0] as nat);
    assert(le_value(s2) == s[0] as nat + s[1] as nat * 0x100);
    assert(le_value(s3) == s[0] as nat + s[1] as nat * 0x100 + s[2] as nat * 0x10000);
    assert(le_value(s) == le_value(s3) + s[3] as nat * 0x1000000);
}

/// The bits of a code of width `w` make the code, if it fits in `w` bits.
pub proof fn lemma_emit_value(v: u32, w: nat)
    requires
        1 <= w <= 32,
        v < pow2(w),
    ensures
        bits_value(emit(v, w)) == v,
        emit(v, w).len() == w,
{
    let all = stream_bits(le4(v));
    let lo = all.take(w as int);
    let hi = all.subrange(w as int, 32);
    assert(all =~= lo + hi);
    lemma_le4(v);
    lemma_le_value_bits(le4(v));
    lemma_bits_value_concat(lo, hi);
    lemma_bits_value_bound(lo);
    let a = pow2(w) as int;
    let m = bits_value(hi) as int;
    assert(a * m == 0) by (nonlinear_arith)
        requires
            a > 0,
            m >= 0,
            a * m < a,
    ;
}

/// Reading where a code was written gives it back.
pub proof fn lemma_read_emitted(b: Seq<bool>, pos: int, v: u32, w: nat)
    requires
        0 <= pos,
        pos + w <= b.len(),
        1 <= w <= 32,
        v < pow2(w),
        b.subrange(pos, pos + w) == emit(v, w),
    ensures
        read_code(b, pos, w as int) == Some(v as nat),
{
    lemma_emit_value(v, w);
}

} // verus!

verus! {

/// The decoder state `d` has read every code the encoder `e` wrote after
/// reading `x.take(n)`, in a dictionary that has written codes already.
pub open spec fn rel_a(x: Seq<u8>, n: int, e: EncState, d: DecState) -> bool {
    &&& e.prefix is Some
    &&& d.pos == e.bits.len()
    &&& d.dict.len() + 1 == e.size
    &&& forall|j: int|
        0 <= j < d.dict.len() && j != 256 && j != 257 ==> #[trigger] word_of(d.dict, j) == Some(
            e.words[j],
        )
    &&& d.prev_code < d.dict.len() && d.prev_code != 256 && d.prev_code != 257
    &&& d.prev_word == e.words[d.prev_code as int]
    &&& e.words[e.size - 1] == e.words[d.prev_code as int].push(e.words[e.prefix->0 as int][0])
    &&& d.width == e.width
    &&& d.out + e.words[e.prefix->0 as int] == x.take(n)
}

/// The decoder state `d` is about to read the clear code that the encoder `e`
/// wrote last, after reading `x.take(n)`.
pub open spec fn rel_c(x: Seq<u8>, n: int, e: EncState, d: DecState) -> bool {
    &&& e.prefix is Some
    &&& e.size == 258
    &&& d.pos + 20 == e.bits.len()
    &&& d.width == 20
    &&& e.bits.subrange(d.pos as int, d.pos + 20int) == emit(256, 20)
    &&& d.out + e.words[e.prefix->0 as int] == x.take(n)
}

/// Where decoding `packed` stands once the encoder has read `x.take(n)`.
pub open spec fn sim(x: Seq<u8>, packed: Seq<u8>, n: int, d: DecState) -> bool {
    let e = enc_run(x.take(n));
    let b = stream_bits(packed);
    &&& e.size >= 259 ==> rel_a(x, n, e, d) && spec_decode(packed) == dec_loop(b, d)
    &&& e.size == 258 && e.bits.len() > 0 ==> rel_c(x, n, e, d) && spec_decode(packed) == dec_loop(
        b,
        d,
    )
    &&& e.size == 258 && e.bits.len() == 0 && n > 0 ==> e.prefix is Some && e.words[e.prefix->0 as int]
        == x.take(n)
}

/// What the packed bytes of the encoder's bits hold: those bits, then zeros.
proof fn lemma_packed_bits(packed: Seq<u8>, bb: Seq<bool>)
    requires
        packs(packed, bb),
    ensures
        starts(bb, stream_bits(packed)),
        forall|k: int| bb.len() <= k < stream_bits(packed).len() ==> !stream_bits(packed)[k],
{
    let b = stream_bits(packed);
    assert(bb.len() <= b.len()) by {
        vstd::arithmetic::div_mod::lemma_fundamental_div_mod(bb.len() + 7int, 8int);
    }
    assert(b.take(bb.len() as int) =~= bb);
}

/// Reading the packed bytes where the encoder wrote a code gives the code.
proof fn lemma_read_at(x: Seq<u8>, packed: Seq<u8>, bits: Seq<bool>, pos: int, v: u32, w: nat)
    requires
        packs(packed, encode_bits(x)),
        starts(bits, encode_bits(x)),
        0 <= pos,
        pos + w <= bits.len(),
        1 <= w <= 32,
        v < pow2(w),
        bits.subrange(pos, pos + w) == emit(v, w),
    ensures
        read_code(stream_bits(packed), pos, w as int) == Some(v as nat),
{
    let b = stream_bits(packed);
    lemma_packed_bits(packed, encode_bits(x));
    assert(b.subrange(pos, pos + w) =~= bits.subrange(pos, pos + w));
    lemma_read_emitted(b, pos, v, w);
}

/// The bits the encoder wrote after reading `x.take(n)` start its whole output.
proof fn lemma_bits_start(x: Seq<u8>, n: int)
    requires
        0 <= n <= x.len(),
    ensures
        starts(enc_run(x.take(n)).bits, encode_bits(x)),
{
    lemma_bits_grow(x, n, x.len() as int);
    assert(x.take(x.len() as int) =~= x);
    let a = enc_run(x.take(n)).bits;
    let f = enc_run(x).bits;
    let full = encode_bits(x);
    assert(full.take(f.len() as int) =~= f);
    assert(full.take(a.len() as int) =~= f.take(a.len() as int));
}

} // verus!

verus! {

/// A byte that extends the word read keeps the decoder where it is.
proof fn lemma_step_hit(x: Seq<u8>, packed: Seq<u8>, n: int, d: DecState)
    requires
        packs(packed, encode_bits(x)),
        0 <= n < x.len(),
        sim(x, packed, n, d),
        enc_run(x.take(n)).map.contains_key(key_of(x[n] as u16, enc_run(x.take(n)).prefix)),
    ensures
        sim(x, packed, n + 1, d),
{
    let e = enc_run(x.take(n));
    let c = x[n];
    lemma_enc_run_inv(x.take(n));
    lemma_enc_run_words(x.take(n));
    lemma_run_step(x, n);
    let e2 = enc_step(e, c);
    assert(enc_run(x.take(n + 1)) == e2);
    assert(x.take(n + 1) =~= x.take(n).push(c));
    match e.prefix {
        None => {
            assert(x.take(n).len() == 0);
            assert(e.map.contains_key(c as u64));
            assert(e2.prefix == Some(c as u32));
            assert(e2.words[c as int] == seq![c]);
            assert(x.take(n + 1) =~= seq![c]);
        },
        Some(p) => {
            let k2 = e.map[key_of(c as u16, Some(p))];
            assert(e2.prefix == Some(k2));
            assert(e.words[k2 as int] == e.words[p as int].push(c));
            assert(e.words[p as int].len() > 0);
            assert(e.words[k2 as int][0] == e.words[p as int][0]);
            assert(d.out + e.words[k2 as int] =~= (d.out + e.words[p as int]).push(c));
        },
    }
}

} // verus!

verus! {

/// In a dictionary that has written codes, the decoder reads the code of the
/// word the encoder wrote and files the same word the encoder filed.
proof fn lemma_dec_word(b: Seq<bool>, x: Seq<u8>, n: int, e: EncState, d: DecState) -> (d2: DecState)
    requires
        rel_a(x, n, e, d),
        enc_inv(e),
        enc_words_inv(e),
        read_code(b, d.pos as int, d.width as int) == Some(e.prefix->0 as nat),
    ensures
        d2 == dec_add(d, e.prefix->0 as nat, e.words[e.prefix->0 as int]),
        dec_loop(b, d) == dec_loop(b, d2),
{
    let kp = e.prefix->0;
    let w = e.words[kp as int];
    if (kp as int) < d.dict.len() {
        assert(word_of(d.dict, kp as int) == Some(w));
    } else {
        let pw = e.words[d.prev_code as int];
        assert(kp == e.size - 1);
        assert(w == pw.push(w[0]));
        assert(pw.len() > 0);
        assert(w[0] == pw[0]);
        assert(d.prev_word.push(d.prev_word[0]) == w);
    }
    dec_add(d, kp as nat, w)
}

} // verus!

verus! {

/// A byte that ends the word read, in a dictionary that has written codes: the
/// decoder reads the code written and files the same word as the encoder.
proof fn lemma_step_miss_a(x: Seq<u8>, packed: Seq<u8>, n: int, d: DecState) -> (d2: DecState)
    requires
        packs(packed, encode_bits(x)),
        0 <= n < x.len(),
        sim(x, packed, n, d),
        enc_run(x.take(n)).size >= 259,
        !enc_run(x.take(n)).map.contains_key(key_of(x[n] as u16, enc_run(x.take(n)).prefix)),
    ensures
        sim(x, packed, n + 1, d2),
{
    let e = enc_run(x.take(n));
    let c = x[n];
    let b = stream_bits(packed);
    lemma_enc_run_inv(x.take(n));
    lemma_enc_run_words(x.take(n));
    lemma_run_step(x, n);
    lemma_root_words();
    lemma_pow2_steps(e.width as nat);
    let e2 = enc_step(e, c);
    assert(enc_run(x.take(n + 1)) == e2);
    assert(x.take(n + 1) =~= x.take(n).push(c));
    let kp = e.prefix->0;
    let w = e.width;
    lemma_emit_value(kp, w as nat);
    lemma_bits_start(x, n + 1);
    let bits1 = e.bits + emit(kp, w as nat);
    assert(e2.bits.subrange(e.bits.len() as int, e.bits.len() + w) =~= emit(kp, w as nat));
    lemma_read_at(x, packed, e2.bits, e.bits.len() as int, kp, w as nat);
    let d2 = lemma_dec_word(b, x, n, e, d);
    let wk = e.words[kp as int];
    assert(d2.out + e2.words[c as int] =~= (d.out + wk).push(c));
    let pc = d.prev_code;
    assert(word_of(d.dict, pc as int) == Some(e.words[pc as int]));
    assert(d2.dict == d.dict.push((wk[0], Some(pc as usize))));
    lemma_word_new(d.dict, wk[0], pc as usize);
    assert(word_of(d2.dict, d.dict.len() as int) == Some(e.words[e.size - 1]));
    if e2.size == 258 {
        assert(e2.bits.subrange(d2.pos as int, d2.pos + 20int) =~= emit(256, 20));
    } else {
        assert(e2.words == e.words.push(wk.push(c)));
        assert forall|j: int| 0 <= j < d2.dict.len() && j != 256 && j != 257 implies #[trigger] word_of(
            d2.dict,
            j,
        ) == Some(e2.words[j]) by {
            if j < d.dict.len() {
                lemma_word_push(d.dict, (wk[0], Some(pc as usize)), j);
            }
        }
    }
    d2
}

} // verus!

verus! {

/// A byte that ends the word read, in a dictionary that has written no code
/// yet: the decoder reads the first code of the dictionary (after the clear
/// code, if there was one).
proof fn lemma_step_miss_fresh(x: Seq<u8>, packed: Seq<u8>, n: int, d: DecState) -> (d2: DecState)
    requires
        packs(packed, encode_bits(x)),
        0 < n < x.len(),
        sim(x, packed, n, d),
        enc_run(x.take(n)).size == 258,
        !enc_run(x.take(n)).map.contains_key(key_of(x[n] as u16, enc_run(x.take(n)).prefix)),
    ensures
        sim(x, packed, n + 1, d2),
{
    let e = enc_run(x.take(n));
    let c = x[n];
    let b = stream_bits(packed);
    lemma_enc_run_inv(x.take(n));
    lemma_enc_run_words(x.take(n));
    lemma_run_step(x, n);
    lemma_root_words();
    lemma2_to64();
    if e.width != 9 {
        vstd::arithmetic::power2::lemma_pow2_strictly_increases(9, (e.width - 1) as nat);
    }
    assert(e.width == 9);
    let e2 = enc_step(e, c);
    assert(enc_run(x.take(n + 1)) == e2);
    assert(x.take(n + 1) =~= x.take(n).push(c));
    let kp = e.prefix->0;
    assert(kp < 256);
    assert(e.words[kp as int] == seq![kp as u8]);
    lemma_emit_value(kp, 9);
    lemma_bits_start(x, n + 1);
    assert(e2.bits.subrange(e.bits.len() as int, e.bits.len() + 9int) =~= emit(kp, 9));
    lemma_read_at(x, packed, e2.bits, e.bits.len() as int, kp, 9);
    let dict0 = if e.bits.len() == 0 {
        start_dict()
    } else {
        fresh_dict()
    };
    let out0 = if e.bits.len() == 0 {
        Seq::<u8>::empty()
    } else {
        d.out
    };
    let d1 = DecState {
        dict: dict0,
        prev_code: kp as nat,
        prev_word: seq![root_char(kp as nat)],
        width: 9,
        pos: e.bits.len() + 9,
        out: out0.push(root_char(kp as nat)),
    };
    assert(dec_begin(b, e.bits.len(), dict0, out0) == Ok::<DecState, crate::lzw::DecodeError>(d1));
    if e.bits.len() == 0 {
        assert(spec_decode(packed) == dec_loop(b, d1));
        assert(x.take(n) == seq![kp as u8]);
    } else {
        lemma_emit_value(256, 20);
        lemma_bits_start(x, n);
        lemma_read_at(x, packed, e.bits, d.pos as int, 256, 20);
        assert(dec_loop(b, d) == dec_loop(b, d1));
    }
    assert(e2.words[258] == seq![kp as u8].push(c));
    assert(d1.out + e2.words[c as int] =~= x.take(n + 1));
    assert forall|j: int| 0 <= j < d1.dict.len() && j != 256 && j != 257 implies #[trigger] word_of(
        d1.dict,
        j,
    ) == Some(e2.words[j]) by {
        assert(e2.words[j] == e.words[j]);
        assert(d1.dict[j] == (j as u8, None::<usize>));
    }
    d1
}

} // verus!

verus! {

/// Decoding keeps pace with encoding, byte after byte.
proof fn lemma_sim(x: Seq<u8>, packed: Seq<u8>, n: int) -> (d: DecState)
    requires
        packs(packed, encode_bits(x)),
        0 <= n <= x.len(),
    ensures
        sim(x, packed, n, d),
    decreases n,
{
    if n == 0 {
        assert(x.take(0) =~= Seq::<u8>::empty());
        DecState {
            dict: start_dict(),
            prev_code: 0,
            prev_word: Seq::empty(),
            width: 9,
            pos: 0,
            out: Seq::empty(),
        }
    } else {
        let d0 = lemma_sim(x, packed, n - 1);
        let e = enc_run(x.take(n - 1));
        lemma_enc_run_inv(x.take(n - 1));
        lemma_enc_run_words(x.take(n - 1));
        if e.map.contains_key(key_of(x[n - 1] as u16, e.prefix)) {
            lemma_step_hit(x, packed, n - 1, d0);
            d0
        } else if e.size >= 259 {
            lemma_step_miss_a(x, packed, n - 1, d0)
        } else {
            if n - 1 == 0 {
                assert(x.take(0) =~= Seq::<u8>::empty());
                assert(e.map.contains_key(x[0] as u64));
            }
            lemma_step_miss_fresh(x, packed, n - 1, d0)
        }
    }
}

/// Facts about the encoder's last state and the bits it wrote at the end.
proof fn lemma_end_facts(x: Seq<u8>, packed: Seq<u8>)
    requires
        packs(packed, encode_bits(x)),
        x.len() > 0,
    ensures
        enc_inv(enc_run(x)),
        enc_words_inv(enc_run(x)),
        enc_run(x).prefix is Some,
        read_code(
            stream_bits(packed),
            enc_run(x).bits.len() as int,
            enc_run(x).width as int,
        ) == Some(enc_run(x).prefix->0 as nat),
        read_code(
            stream_bits(packed),
            enc_run(x).bits.len() + enc_run(x).width,
            enc_run(x).width as int,
        ) == Some(257nat),
        enc_run(x).bits.len() + 2 * enc_run(x).width <= stream_bits(packed).len(),
        forall|k: int|
            enc_run(x).bits.len() + 2 * enc_run(x).width <= k < stream_bits(packed).len()
                ==> !stream_bits(packed)[k],
{
    let e = enc_run(x);
    let bb = encode_bits(x);
    lemma_enc_run_inv(x);
    lemma_enc_run_words(x);
    lemma2_to64();
    lemma_pow2_steps(e.width as nat);
    if e.width > 9 {
        vstd::arithmetic::power2::lemma_pow2_strictly_increases(9, e.width as nat);
    }
    lemma_packed_bits(packed, bb);
    assert(bb.take(bb.len() as int) =~= bb);
    let kp = e.prefix->0;
    let w = e.width;
    let p = e.bits.len() as int;
    lemma_emit_value(kp, w as nat);
    lemma_emit_value(257, w as nat);
    assert(bb.subrange(p, p + w) =~= emit(kp, w as nat));
    assert(bb.subrange(p + w, p + 2 * w) =~= emit(257, w as nat));
    lemma_read_at(x, packed, bb, p, kp, w as nat);
    lemma_read_at(x, packed, bb, p + w, 257, w as nat);
}

/// The end, in a dictionary that has written codes: the decoder reads the code
/// of the word left over, then the end code (one bit wider if it widened its
/// codes after that word, the extra bit being padding) or runs out of bits.
proof fn lemma_end_a(x: Seq<u8>, packed: Seq<u8>, d: DecState)
    requires
        packs(packed, encode_bits(x)),
        x.len() > 0,
        sim(x, packed, x.len() as int, d),
        enc_run(x).size >= 259,
    ensures
        spec_decode(packed) == Ok::<Seq<u8>, crate::lzw::DecodeError>(x),
{
    let n = x.len() as int;
    assert(x.take(n) =~= x);
    let e = enc_run(x);
    let b = stream_bits(packed);
    lemma_end_facts(x, packed);
    lemma_pow2_steps(e.width as nat);
    let w = e.width;
    let p = e.bits.len() as int;
    let d2 = lemma_dec_word(b, x, n, e, d);
    assert(d2.out =~= x);
    if d2.width != w && p + 2 * w + 1 <= b.len() {
        let seg = b.subrange(p + w, p + 2 * w + 1);
        let lo = b.subrange(p + w, p + 2 * w);
        assert(seg =~= lo + seq![false]);
        lemma_bits_value_concat(lo, seq![false]);
        lemma_bits_value_zero(seq![false]);
        assert(pow2(w as nat) * 0 == 0) by (nonlinear_arith);
        assert(read_code(b, p + w, w + 1) == Some(257nat));
    }
}

/// The end, in a dictionary that has written no code yet: the decoder reads
/// the clear code if there was one, the code of the word left over, then the
/// end code.
proof fn lemma_end_fresh(x: Seq<u8>, packed: Seq<u8>, d: DecState)
    requires
        packs(packed, encode_bits(x)),
        x.len() > 0,
        sim(x, packed, x.len() as int, d),
        enc_run(x).size == 258,
    ensures
        spec_decode(packed) == Ok::<Seq<u8>, crate::lzw::DecodeError>(x),
{
    let n = x.len() as int;
    assert(x.take(n) =~= x);
    let e = enc_run(x);
    let b = stream_bits(packed);
    lemma_end_facts(x, packed);
    lemma_root_words();
    lemma2_to64();
    if e.width != 9 {
        vstd::arithmetic::power2::lemma_pow2_strictly_increases(9, (e.width - 1) as nat);
    }
    assert(e.width == 9);
    let kp = e.prefix->0;
    let p = e.bits.len() as int;
    assert(kp < 256);
    let dict0 = if e.bits.len() == 0 {
        start_dict()
    } else {
        fresh_dict()
    };
    let out0 = if e.bits.len() == 0 {
        Seq::<u8>::empty()
    } else {
        d.out
    };
    let d1 = DecState {
        dict: dict0,
        prev_code: kp as nat,
        prev_word: seq![root_char(kp as nat)],
        width: 9,
        pos: (p + 9) as nat,
        out: out0.push(root_char(kp as nat)),
    };
    assert(dec_begin(b, p as nat, dict0, out0) == Ok::<DecState, crate::lzw::DecodeError>(d1));
    assert(e.words[kp as int] == seq![kp as u8]);
    assert(d1.out =~= x);
    if e.bits.len() > 0 {
        lemma_emit_value(256, 20);
        lemma_bits_start(x, n);
        lemma_read_at(x, packed, e.bits, d.pos as int, 256, 20);
        assert(dec_loop(b, d) == dec_loop(b, d1));
    }
}

/// Decompressing what `encode` wrote gives back the input, for every input
/// that `encode` accepts.
pub proof fn lemma_decode_encode(data: Seq<u8>, packed: Seq<u8>)
    requires
        data.len() > 0,
        packs(packed, encode_bits(data)),
    ensures
        spec_decode(packed) == Ok::<Seq<u8>, crate::lzw::DecodeError>(data),
{
    let d = lemma_sim(data, packed, data.len() as int);
    assert(data.take(data.len() as int) =~= data);
    if enc_run(data).size >= 259 {
        lemma_end_a(data, packed, d);
    } else {
        lemma_enc_run_inv(data);
        lemma_end_fresh(data, packed, d);
    }
}

} // verus!
