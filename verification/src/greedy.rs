//! What the encoder does with each byte: it files every word it writes a code
//! for, and writes a code only when the word read cannot be extended.

use crate::lzw::{emit, enc_inv, enc_run, enc_step, fresh_map, key_of, lemma_enc_run_inv, EncState};
use vstd::arithmetic::power2::{lemma2_to64, lemma_pow2_strictly_increases, pow2};
use crate::roundtrip::{enc_words_inv, lemma_enc_run_words, lemma_key, lemma_root_words, lemma_run_step};
use vstd::prelude::*;

verus! {

/// Code `k` is filed in the encoder's map under the key of a byte and of a
/// code other than the clear and end codes.
pub open spec fn filed(st: EncState, k: int) -> bool {
    exists|c: u16, p: u32|
        #![trigger st.map.contains_key(key_of(c, Some(p)))]
        c < 256 && p != 256 && p != 257 && st.map.contains_key(key_of(c, Some(p))) && st.map[key_of(
            c,
            Some(p),
        )] == k
}

/// The encoder's dictionary files every code it has handed out since the last
/// clear, and no two codes (but the clear and end codes) spell the same word.
pub open spec fn enc_dict_inv(st: EncState) -> bool {
    &&& forall|c: u16, p: u32|
        c < 256 && #[trigger] st.map.contains_key(key_of(c, Some(p))) ==> p != 256 && p != 257
    &&& forall|k: int| 258 <= k < st.size ==> #[trigger] filed(st, k)
    &&& forall|i: int, j: int|
        0 <= i < st.size && 0 <= j < st.size && i != j && i != 256 && i != 257 && j != 256 && j
            != 257 ==> #[trigger] st.words[i] != #[trigger] st.words[j]
}

proof fn lemma_fresh_dict_inv(st: EncState)
    requires
        st.size == 258,
        forall|j: int| 0 <= j < 256 ==> #[trigger] st.words[j] == seq![j as u8],
        forall|c: u16, p: u32| c < 256 ==> !(#[trigger] st.map.contains_key(key_of(c, Some(p)))),
    ensures
        enc_dict_inv(st),
{
    assert forall|i: int, j: int|
        0 <= i < st.size && 0 <= j < st.size && i != j && i != 256 && i != 257 && j != 256 && j
            != 257 implies #[trigger] st.words[i] != #[trigger] st.words[j] by {
        assert(st.words[i][0] == i as u8);
        assert(st.words[j][0] == j as u8);
    }
}

proof fn lemma_enc_step_dict(st: EncState, c: u8)
    requires
        enc_inv(st),
        enc_words_inv(st),
        enc_dict_inv(st),
    ensures
        enc_dict_inv(enc_step(st, c)),
{
    let k = key_of(c as u16, st.prefix);
    let st2 = enc_step(st, c);
    lemma_root_words();
    crate::lzw::lemma_pow2_steps(st.width as nat);
    if st.map.contains_key(k) {
        assert(st2.map == st.map && st2.words == st.words && st2.size == st.size);
        assert forall|kk: int| 258 <= kk < st2.size implies #[trigger] filed(st2, kk) by {
            assert(filed(st, kk));
        }
    } else {
        assert(st.map.contains_key(c as u64));
        let p0 = st.prefix->0;
        assert(k == key_of(c as u16, Some(p0)));
        if st2.size == 258 {
            assert forall|c2: u16, p2: u32| c2 < 256 implies !(#[trigger] st2.map.contains_key(
                key_of(c2, Some(p2)),
            )) by {
                lemma_key(c2, p2, 0, 0);
            }
            lemma_fresh_dict_inv(st2);
        } else {
            let nw = st.words[p0 as int].push(c);
            assert(st2.map == st.map.insert(k, st.size));
            assert(st2.words == st.words.push(nw));
            assert(st2.size == st.size + 1);
            assert forall|c2: u16, p2: u32|
                c2 < 256 && #[trigger] st2.map.contains_key(key_of(c2, Some(p2))) implies p2 != 256
                && p2 != 257 by {
                lemma_key(c2, p2, c as u16, p0);
                if key_of(c2, Some(p2)) != k {
                    assert(st.map.contains_key(key_of(c2, Some(p2))));
                }
            }
            assert forall|kk: int| 258 <= kk < st2.size implies #[trigger] filed(st2, kk) by {
                if kk == st.size {
                    lemma_key(c as u16, p0, 0, 0);
                    assert(st2.map.contains_key(key_of(c as u16, Some(p0))));
                } else {
                    assert(filed(st, kk));
                    let (c1, p1) = choose|c1: u16, p1: u32|
                        #![trigger st.map.contains_key(key_of(c1, Some(p1)))]
                        c1 < 256 && p1 != 256 && p1 != 257 && st.map.contains_key(
                            key_of(c1, Some(p1)),
                        ) && st.map[key_of(c1, Some(p1))] == kk;
                    assert(key_of(c1, Some(p1)) != k);
                    assert(st2.map.contains_key(key_of(c1, Some(p1))));
                }
            }
            assert forall|i: int, j: int|
                0 <= i < st2.size && 0 <= j < st2.size && i != j && i != 256 && i != 257 && j
                    != 256 && j != 257 implies #[trigger] st2.words[i] != #[trigger] st2.words[j] by {
                if i == st.size {
                    lemma_new_word_unique(st, c, j);
                } else if j == st.size {
                    lemma_new_word_unique(st, c, i);
                } else {
                    assert(st2.words[i] == st.words[i]);
                    assert(st2.words[j] == st.words[j]);
                }
            }
        }
    }
}

/// A word the encoder files on a miss differs from every word it had.
proof fn lemma_new_word_unique(st: EncState, c: u8, j: int)
    requires
        enc_inv(st),
        enc_words_inv(st),
        enc_dict_inv(st),
        st.prefix is Some,
        !st.map.contains_key(key_of(c as u16, st.prefix)),
        0 <= j < st.size,
        j != 256,
        j != 257,
    ensures
        st.words[j] != st.words[st.prefix->0 as int].push(c),
{
    let p0 = st.prefix->0;
    let nw = st.words[p0 as int].push(c);
    if st.words[j] == nw {
        assert(st.words[p0 as int].len() > 0);
        if j < 256 {
            assert(st.words[j].len() == 1);
        } else {
            assert(filed(st, j));
            let (c1, p1) = choose|c1: u16, p1: u32|
                #![trigger st.map.contains_key(key_of(c1, Some(p1)))]
                c1 < 256 && p1 != 256 && p1 != 257 && st.map.contains_key(key_of(c1, Some(p1)))
                    && st.map[key_of(c1, Some(p1))] == j;
            assert(st.words[j] == st.words[p1 as int].push(c1 as u8));
            assert(st.words[p1 as int] == nw.drop_last());
            assert(nw.drop_last() =~= st.words[p0 as int]);
            assert(st.words[j].last() == c1 as u8);
            assert(nw.last() == c);
            assert(c1 as u8 == c);
            assert(p1 == p0);
            assert(c1 == c as u16);
        }
    }
}

/// The dictionary invariant holds after any input.
pub proof fn lemma_enc_run_dict(data: Seq<u8>)
    ensures
        enc_dict_inv(enc_run(data)),
    decreases data.len(),
{
    lemma_root_words();
    if data.len() == 0 {
        assert forall|c2: u16, p2: u32| c2 < 256 implies !(#[trigger] enc_run(data).map.contains_key(
            key_of(c2, Some(p2)),
        )) by {
            lemma_key(c2, p2, 0, 0);
        }
        lemma_fresh_dict_inv(enc_run(data));
    } else {
        lemma_enc_run_dict(data.drop_last());
        lemma_enc_run_words(data.drop_last());
        lemma_enc_run_inv(data.drop_last());
        lemma_enc_step_dict(enc_run(data.drop_last()), data.last());
    }
}

} // verus!

verus! {

/// The word the encoder has read and not yet written is the last bytes of its
/// input.
pub proof fn lemma_pending_word_is_input_suffix(x: Seq<u8>, n: int)
    requires
        0 < n <= x.len(),
    ensures
        enc_run(x.take(n)).prefix is Some,
        ({
            let e = enc_run(x.take(n));
            let w = e.words[e.prefix->0 as int];
            &&& 0 < w.len() <= n
            &&& x.take(n).subrange(n - w.len(), n) == w
        }),
    decreases n,
{
    let e = enc_run(x.take(n - 1));
    let c = x[n - 1];
    lemma_run_step(x, n - 1);
    lemma_enc_run_inv(x.take(n - 1));
    lemma_enc_run_words(x.take(n - 1));
    lemma_enc_run_inv(x.take(n));
    lemma_enc_run_words(x.take(n));
    lemma_root_words();
    let e2 = enc_run(x.take(n));
    let w2 = e2.words[e2.prefix->0 as int];
    let k = key_of(c as u16, e.prefix);
    if e.map.contains_key(k) && n > 1 {
        lemma_pending_word_is_input_suffix(x, n - 1);
        let p = e.prefix->0;
        let w = e.words[p as int];
        lemma_key(c as u16, p, 0, 0);
        assert(w2 == w.push(c));
        assert(x.take(n).subrange(n - w2.len(), n) =~= x.take(n - 1).subrange(
            n - 1 - w.len(),
            n - 1,
        ).push(c));
    } else {
        if e.map.contains_key(k) {
            assert(x.take(0) =~= Seq::<u8>::empty());
            assert(k == c as u64);
        }
        assert(w2 == seq![c]);
        assert(x.take(n).subrange(n - 1, n) =~= seq![c]);
    }
}

/// The encoder files the word it missed: when reading byte `x[n]` makes it
/// write a code, that code is the code of the word read, `x[n]` starts the
/// next word, and the word read followed by `x[n]`, whatever byte that is,
/// gets the next free code, under the key of `x[n]` and the code of the word
/// read. Codes widen by one bit when the next free code reaches a power of
/// two; only when it would reach 2^19 does the encoder write a clear code in 20
/// bits and start a fresh dictionary instead.
pub proof fn lemma_encoder_files_missed_word(x: Seq<u8>, n: int)
    requires
        0 <= n < x.len(),
        enc_run(x.take(n + 1)).bits.len() > enc_run(x.take(n)).bits.len(),
    ensures
        enc_run(x.take(n)).prefix is Some,
        ({
            let e = enc_run(x.take(n));
            let e2 = enc_run(x.take(n + 1));
            let key = key_of(x[n] as u16, e.prefix);
            let written = e.bits + emit(e.prefix->0, e.width as nat);
            &&& !e.map.contains_key(key)
            &&& e2.prefix == Some(x[n] as u32)
            &&& e.size + 1 <= 0x80000
            &&& e.size + 1 < 0x80000 ==> {
                &&& e2.size == e.size + 1
                &&& e2.map.contains_key(key)
                &&& e2.map[key] == e.size
                &&& e2.words[e.size as int] == e.words[e.prefix->0 as int].push(x[n])
                &&& e2.width == (if e.size + 1 == pow2(e.width as nat) {
                    e.width + 1
                } else {
                    e.width as int
                })
                &&& e2.bits == written
            }
            &&& e.size + 1 == 0x80000 ==> {
                &&& e2.size == 258
                &&& e2.width == 9
                &&& e2.map == fresh_map()
                &&& e2.bits == written + emit(256, 20)
            }
        }),
{
    lemma_run_step(x, n);
    lemma_enc_run_inv(x.take(n));
    lemma_enc_run_words(x.take(n));
    let e = enc_run(x.take(n));
    crate::lzw::lemma_pow2_steps(e.width as nat);
    lemma2_to64();
    if e.width < 19 {
        lemma_pow2_strictly_increases(e.width as nat, 19);
    }
    let k = key_of(x[n] as u16, e.prefix);
    assert(!e.map.contains_key(k));
    assert(e.map.contains_key(x[n] as u64));
    let e2 = enc_run(x.take(n + 1));
    if e.size + 1 < 0x80000 {
        assert(e2.words == e.words.push(e.words[e.prefix->0 as int].push(x[n])));
    }
}

/// Every code the encoder has handed out since the last clear code stays
/// findable: it is filed under the key of its last byte and the code of the
/// word before it, and spells that word followed by that byte.
pub proof fn lemma_encoder_files_every_code(x: Seq<u8>, n: int)
    requires
        0 <= n <= x.len(),
    ensures
        forall|k: int| 258 <= k < enc_run(x.take(n)).size ==> #[trigger] filed(enc_run(x.take(n)), k),
        forall|c: u16, p: u32|
            c < 256 && #[trigger] enc_run(x.take(n)).map.contains_key(key_of(c, Some(p))) ==> {
                let e = enc_run(x.take(n));
                let k = e.map[key_of(c, Some(p))];
                &&& 258 <= k < e.size
                &&& e.words[k as int] == e.words[p as int].push(c as u8)
            },
{
    lemma_enc_run_dict(x.take(n));
    lemma_enc_run_words(x.take(n));
}

/// The encoder parses greedily: reading byte `x[n]` makes it write a code
/// exactly when the word read followed by `x[n]` is no word of its dictionary
/// (the clear and end codes aside); otherwise it writes nothing and that
/// longer word becomes the word read.
pub proof fn lemma_encoder_greedy(x: Seq<u8>, n: int)
    requires
        0 < n < x.len(),
    ensures
        enc_run(x.take(n)).prefix is Some,
        ({
            let e = enc_run(x.take(n));
            let e2 = enc_run(x.take(n + 1));
            let ext = e.words[e.prefix->0 as int].push(x[n]);
            &&& (e2.bits.len() > e.bits.len()) <==> !(exists|j: int|
                0 <= j < e.size && j != 256 && j != 257 && #[trigger] e.words[j] == ext)
            &&& e2.bits.len() == e.bits.len() ==> e2.bits == e.bits && e2.words[e2.prefix->0 as int]
                == ext
        }),
{
    let e = enc_run(x.take(n));
    let c = x[n];
    lemma_run_step(x, n);
    lemma_enc_run_inv(x.take(n));
    lemma_enc_run_words(x.take(n));
    lemma_enc_run_dict(x.take(n));
    let p = e.prefix->0;
    let ext = e.words[p as int].push(c);
    let k = key_of(c as u16, e.prefix);
    let e2 = enc_run(x.take(n + 1));
    if e.map.contains_key(k) {
        lemma_key(c as u16, p, 0, 0);
        let k2 = e.map[k];
        assert(e.words[k2 as int] == ext);
        assert(e2.bits == e.bits);
    } else {
        assert(e2.bits.len() >= e.bits.len() + e.width);
        assert forall|j: int| 0 <= j < e.size && j != 256 && j != 257 implies #[trigger] e.words[j]
            != ext by {
            lemma_new_word_unique(e, c, j);
        }
    }
}

} // verus!
