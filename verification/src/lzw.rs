//! LZW compression of bytes into a bit stream of variable-width codes, and back.

use crate::bits::{
    bits_value,
    lemma_bits_value_concat,
    lemma_bits_value_zero,
    lemma_byte_value,
    lemma_stream_bits_push,
    packs,
    stream_bits,
};
use crate::bitstream::{BitStream, Mode, StreamError};
use vstd::arithmetic::power2::{lemma2_to64, pow2};
use std::collections::HashMap;
use vstd::prelude::*;

verus! {

/// The code that tells the decoder to start a fresh dictionary.
pub const CLEAR_CODE: usize = 256;

/// The code that ends a compressed stream.
pub const END_CODE: usize = 257;

/// The little-endian value of a byte sequence: byte `i` weighs `256^i`.
pub open spec fn le_value(s: Seq<u8>) -> nat
    decreases s.len(),
{
    if s.len() == 0 {
        0
    } else {
        le_value(s.drop_last()) + s.last() as nat * pow2(8 * (s.len() - 1) as nat)
    }
}

proof fn lemma_or_shift(acc: u32, x: u8, shift: u32)
    by (bit_vector)
    requires
        (shift == 0 && acc == 0) || (shift == 8 && acc < 0x100) || (shift == 16 && acc < 0x10000)
            || (shift == 24 && acc < 0x1000000),
    ensures
        acc | ((x as u32) << shift) == acc + (x as u32) * (1u32 << shift),
        shift == 0 ==> (1u32 << shift) == 1,
        shift == 8 ==> (1u32 << shift) == 0x100,
        shift == 16 ==> (1u32 << shift) == 0x10000,
        shift == 24 ==> (1u32 << shift) == 0x1000000,
        shift < 24 ==> acc + (x as u32) * (1u32 << shift) < (1u32 << shift) * 256,
{
}

/// Reads up to four bytes as a little-endian number.
pub fn from_le_bytes_to_u32(seq: &[u8]) -> (r: u32)
    requires
        seq.len() <= 4,
    ensures
        r == le_value(seq@),
{
    let mut acc: u32 = 0;
    let mut i: usize = 0;
    proof {
        lemma2_to64();
    }
    while i < seq.len()
        invariant
            seq.len() <= 4,
            i <= seq.len(),
            acc == le_value(seq@.take(i as int)),
            acc < pow2(8 * i as nat),
            pow2(0) == 1 && pow2(8) == 0x100 && pow2(16) == 0x10000 && pow2(24) == 0x1000000
                && pow2(32) == 0x100000000,
        decreases seq.len() - i,
    {
        let x = seq[i];
        let shift: u32 = 8 * (i as u32);
        proof {
            lemma_or_shift(acc, x, shift);
            assert(seq@.take(i + 1).drop_last() =~= seq@.take(i as int));
        }
        acc = acc | ((x as u32) << shift);
        i = i + 1;
    }
    proof {
        assert(seq@.take(i as int) =~= seq@);
    }
    acc
}

} // verus!

verus! {

/// The word of a decoder dictionary entry, found by following the codes of the
/// words before it at most `fuel` times; `None` if that does not reach a word
/// of one byte.
pub open spec fn chain_word(dict: Seq<(u8, Option<usize>)>, e: (u8, Option<usize>), fuel: nat) -> Option<
    Seq<u8>,
>
    decreases fuel,
{
    match e.1 {
        None => Some(seq![e.0]),
        Some(p) => if fuel == 0 || p >= dict.len() {
            None
        } else {
            match chain_word(dict, dict[p as int], (fuel - 1) as nat) {
                Some(w) => Some(w.push(e.0)),
                None => None,
            }
        },
    }
}

/// A chain that ends does so whatever fuel is left over.
pub proof fn lemma_chain_fuel(
    dict: Seq<(u8, Option<usize>)>,
    e: (u8, Option<usize>),
    f1: nat,
    f2: nat,
)
    requires
        chain_word(dict, e, f1) is Some,
        f1 <= f2,
    ensures
        chain_word(dict, e, f2) == chain_word(dict, e, f1),
    decreases f1,
{
    if let Some(p) = e.1 {
        lemma_chain_fuel(dict, dict[p as int], (f1 - 1) as nat, (f2 - 1) as nat);
    }
}

/// A chain that ends gives the same word in a longer dictionary.
pub proof fn lemma_chain_push(
    dict: Seq<(u8, Option<usize>)>,
    e: (u8, Option<usize>),
    f: nat,
    x: (u8, Option<usize>),
)
    requires
        chain_word(dict, e, f) is Some,
    ensures
        chain_word(dict.push(x), e, f) == chain_word(dict, e, f),
    decreases f,
{
    if let Some(p) = e.1 {
        assert(dict.push(x)[p as int] == dict[p as int]);
        lemma_chain_push(dict, dict[p as int], (f - 1) as nat, x);
    }
}

/// Spells out the word of a dictionary entry by following the codes of the
/// words before it back to a word of one byte.
pub fn get_word(entry: &(u8, Option<usize>), dict: &[(u8, Option<usize>)]) -> (out: Vec<u8>)
    requires
        exists|f: nat| chain_word(dict@, *entry, f) is Some,
    ensures
        forall|f: nat| #[trigger]
            chain_word(dict@, *entry, f) is Some ==> out@ == chain_word(dict@, *entry, f)->0,
{
    let ghost f0: nat = choose|f: nat| chain_word(dict@, *entry, f) is Some;
    let ghost w0 = chain_word(dict@, *entry, f0)->0;
    let mut out_rev: Vec<u8> = Vec::new();
    let mut cur: (u8, Option<usize>) = *entry;
    let ghost mut fuel: nat = f0;
    while cur.1.is_some()
        invariant
            chain_word(dict@, cur, fuel) is Some,
            w0 == chain_word(dict@, cur, fuel)->0 + out_rev@.reverse(),
        decreases fuel,
    {
        let i = cur.1.unwrap();
        let ghost prev = out_rev@;
        out_rev.push(cur.0);
        proof {
            assert(out_rev@.reverse() =~= seq![cur.0] + prev.reverse());
        }
        cur = dict[i];
        proof {
            fuel = (fuel - 1) as nat;
        }
    }
    out_rev.push(cur.0);
    let mut out: Vec<u8> = Vec::new();
    let mut j: usize = out_rev.len();
    while j > 0
        invariant
            j <= out_rev.len(),
            out@ == out_rev@.subrange(j as int, out_rev.len() as int).reverse(),
        decreases j,
    {
        j = j - 1;
        out.push(out_rev[j]);
        proof {
            assert(out@ =~= out_rev@.subrange(j as int, out_rev.len() as int).reverse());
        }
    }
    proof {
        assert(out_rev@.subrange(0, out_rev.len() as int) =~= out_rev@);
        assert(out@ =~= w0);
        assert forall|f: nat| #[trigger] chain_word(dict@, *entry, f) is Some implies out@ == chain_word(
            dict@,
            *entry,
            f,
        )->0 by {
            if f <= f0 {
                lemma_chain_fuel(dict@, *entry, f, f0);
            } else {
                lemma_chain_fuel(dict@, *entry, f0, f);
            }
        }
    }
    out
}

} // verus!

verus! {

/// The four little-endian bytes of `v`.
pub open spec fn le4(v: u32) -> Seq<u8> {
    seq![(v & 0xff) as u8, ((v >> 8u32) & 0xff) as u8, ((v >> 16u32) & 0xff) as u8, ((v >> 24u32) & 0xff) as u8]
}

/// The bits that write a code `v` of width `w`: the low `w` bits of `v`.
pub open spec fn emit(v: u32, w: nat) -> Seq<bool> {
    stream_bits(le4(v)).take(w as int)
}

/// The four little-endian bytes of `v`.
fn code_bytes(v: u32) -> (b: Vec<u8>)
    ensures
        b@ == le4(v),
{
    let mut b: Vec<u8> = Vec::new();
    b.push((v & 0xff) as u8);
    b.push(((v >> 8) & 0xff) as u8);
    b.push(((v >> 16) & 0xff) as u8);
    b.push(((v >> 24) & 0xff) as u8);
    proof {
        assert(b@ =~= le4(v));
    }
    b
}

/// The key under which the encoder files the word made of the word with code
/// `prefix` followed by the byte `c`, or of `c` alone.
pub open spec fn key_of(c: u16, prefix: Option<u32>) -> u64 {
    match prefix {
        None => c as u64,
        Some(p) => ((p as int + 1) * 0x10000 + c as int) as u64,
    }
}

fn dict_key(c: u16, prefix: Option<u32>) -> (k: u64)
    ensures
        k == key_of(c, prefix),
{
    match prefix {
        None => c as u64,
        Some(p) => (p as u64 + 1) * 0x10000 + c as u64,
    }
}

/// The one-byte words: byte `c` under its own code.
pub open spec fn root_map() -> Map<u64, u32> {
    Map::new(|k: u64| k < 256, |k: u64| k as u32)
}

/// The encoder's first dictionary.
pub open spec fn start_map() -> Map<u64, u32> {
    root_map().insert(key_of(256, Some(256)), 256u32).insert(key_of(257, Some(257)), 257u32)
}

/// The encoder's dictionary after a clear code.
pub open spec fn fresh_map() -> Map<u64, u32> {
    root_map().insert(key_of(256, None), 256u32).insert(key_of(257, None), 257u32)
}

/// The state of the encoder: its dictionary (`map` files each word under a key
/// made of its last byte and the code of the word before it; `words` spells the
/// word of every code), the code of the word read and not yet written, the next
/// free code, the width of codes, and the bits written.
pub struct EncState {
    pub map: Map<u64, u32>,
    pub words: Seq<Seq<u8>>,
    pub prefix: Option<u32>,
    pub size: u32,
    pub width: u32,
    pub bits: Seq<bool>,
}

/// The word of every code of a fresh dictionary: the byte itself below 256, a
/// zero byte for the clear and end codes, which no input reaches.
pub open spec fn root_words() -> Seq<Seq<u8>> {
    Seq::new(258, |j: int| seq![root_char(j as nat)])
}

/// The encoder before any input.
pub open spec fn enc_start() -> EncState {
    EncState {
        map: start_map(),
        words: root_words(),
        prefix: None,
        size: 258,
        width: 9,
        bits: Seq::empty(),
    }
}

/// The encoder after reading the byte `c`.
pub open spec fn enc_step(st: EncState, c: u8) -> EncState {
    let k = key_of(c as u16, st.prefix);
    if st.map.contains_key(k) {
        EncState { prefix: Some(st.map[k]), ..st }
    } else {
        let bits = st.bits + emit(st.prefix->0, st.width as nat);
        let size = (st.size + 1) as u32;
        let width = if size as int == pow2(st.width as nat) {
            (st.width + 1) as u32
        } else {
            st.width
        };
        if width == 20 {
            EncState {
                map: fresh_map(),
                words: root_words(),
                prefix: Some(c as u32),
                size: 258,
                width: 9,
                bits: bits + emit(CLEAR_CODE as u32, 20),
            }
        } else {
            EncState {
                map: st.map.insert(k, st.size),
                words: st.words.push(st.words[st.prefix->0 as int].push(c)),
                prefix: Some(c as u32),
                size,
                width,
                bits,
            }
        }
    }
}

/// The encoder after reading `data`.
pub open spec fn enc_run(data: Seq<u8>) -> EncState
    decreases data.len(),
{
    if data.len() == 0 {
        enc_start()
    } else {
        enc_step(enc_run(data.drop_last()), data.last())
    }
}

/// The bits that encode `data`: the codes written while reading it, then the
/// code of the word left over and the end code.
pub open spec fn encode_bits(data: Seq<u8>) -> Seq<bool> {
    let st = enc_run(data);
    st.bits + emit(st.prefix->0, st.width as nat) + emit(END_CODE as u32, st.width as nat)
}

/// What holds of the encoder at every step.
pub open spec fn enc_inv(st: EncState) -> bool {
    &&& 9 <= st.width < 20
    &&& 258 <= st.size < pow2(st.width as nat)
    &&& forall|c: u64| c < 256 ==> #[trigger] st.map.contains_key(c)
}

pub proof fn lemma_pow2_steps(w: nat)
    requires
        9 <= w < 20,
    ensures
        pow2(w) < pow2(w + 1),
        pow2(9) == 512,
        pow2(20) == 0x100000,
        pow2(w + 1) <= 0x100000,
{
    lemma2_to64();
    vstd::arithmetic::power2::lemma_pow2_strictly_increases(w, w + 1);
    if w + 1 < 20 {
        vstd::arithmetic::power2::lemma_pow2_strictly_increases(w + 1, 20);
    }
}

/// The encoder's invariant holds after any input, and after a non-empty one
/// there is a word read and not yet written.
pub proof fn lemma_enc_run_inv(data: Seq<u8>)
    ensures
        enc_inv(enc_run(data)),
        data.len() > 0 ==> enc_run(data).prefix is Some,
    decreases data.len(),
{
    lemma2_to64();
    if data.len() > 0 {
        lemma_enc_run_inv(data.drop_last());
        let st = enc_run(data.drop_last());
        lemma_pow2_steps(st.width as nat);
    }
}

} // verus!

verus! {

broadcast use vstd::std_specs::hash::group_hash_axioms;

/// Files every byte under its own code in an empty dictionary.
fn insert_roots(dict: &mut HashMap<u64, u32>)
    requires
        old(dict)@ == Map::<u64, u32>::empty(),
    ensures
        final(dict)@ == root_map(),
{
    let mut i: u16 = 0;
    while i < 256
        invariant
            i <= 256,
            dict@ == Map::new(|k: u64| k < i, |k: u64| k as u32),
        decreases 256 - i,
    {
        let k = dict_key(i, None);
        dict.insert(k, i as u32);
        i = i + 1;
        proof {
            assert(dict@ =~= Map::new(|k: u64| k < i, |k: u64| k as u32));
        }
    }
    proof {
        assert(dict@ =~= root_map());
    }
}

/// Compresses `data`: the codes of the longest words already in the
/// dictionary, each new word filed under the next code, codes widening by one
/// bit each time the next code reaches a power of two, a clear code and a fresh
/// dictionary once they would need 20 bits, and an end code last.
pub fn encode(data: &[u8]) -> (out: Vec<u8>)
    requires
        data.len() > 0,
    ensures
        packs(out@, encode_bits(data@)),
{
    let mut dict: HashMap<u64, u32> = HashMap::new();
    let mut ds = BitStream::new_file(Vec::new(), Mode::Write);
    insert_roots(&mut dict);
    dict.insert(dict_key(256, Some(256)), CLEAR_CODE as u32);
    dict.insert(dict_key(257, Some(257)), END_CODE as u32);
    let mut prefix: Option<u32> = None;
    let mut size: u32 = 258;
    let mut write_bit: u32 = 9;
    let mut i: usize = 0;
    proof {
        assert(data@.take(0) =~= Seq::<u8>::empty());
        assert(ds.bits() =~= Seq::<bool>::empty());
    }
    while i < data.len()
        invariant
            ds.wf(),
            ds.mode_of() == Mode::Write,
            i <= data.len(),
            dict@ == enc_run(data@.take(i as int)).map,
            prefix == enc_run(data@.take(i as int)).prefix,
            size == enc_run(data@.take(i as int)).size,
            write_bit == enc_run(data@.take(i as int)).width,
            ds.bits() == enc_run(data@.take(i as int)).bits,
        decreases data.len() - i,
    {
        let c = data[i];
        proof {
            lemma_enc_run_inv(data@.take(i as int));
            lemma_pow2_steps(write_bit as nat);
            assert(data@.take(i + 1).drop_last() =~= data@.take(i as int));
        }
        let key = dict_key(c as u16, prefix);
        match dict.get(&key) {
            Some(index) => {
                prefix = Some(*index);
            },
            None => {
                let code = prefix.unwrap();
                let _ = ds.write_bit_sequence(code_bytes(code).as_slice(), write_bit as usize);
                dict.insert(key, size);
                size = size + 1;
                proof {
                    vstd::bits::lemma_u32_shl_is_mul(1u32, write_bit);
                }
                if size == (1u32 << write_bit) {
                    write_bit = write_bit + 1;
                }
                if write_bit == 20 {
                    let _ = ds.write_bit_sequence(
                        code_bytes(CLEAR_CODE as u32).as_slice(),
                        write_bit as usize,
                    );
                    dict.clear();
                    insert_roots(&mut dict);
                    dict.insert(dict_key(256, None), CLEAR_CODE as u32);
                    dict.insert(dict_key(257, None), END_CODE as u32);
                    write_bit = 9;
                    size = 258;
                }
                prefix = Some(c as u32);
            },
        }
        i = i + 1;
    }
    proof {
        lemma_enc_run_inv(data@);
        assert(data@.take(data.len() as int) =~= data@);
    }
    let code = prefix.unwrap();
    let _ = ds.write_bit_sequence(code_bytes(code).as_slice(), write_bit as usize);
    let _ = ds.write_bit_sequence(code_bytes(END_CODE as u32).as_slice(), write_bit as usize);
    match ds.close() {
        Ok(out) => out,
        Err(_) => Vec::new(),
    }
}

} // verus!

verus! {

/// The little-endian value of bytes is the value of their bits.
pub proof fn lemma_le_value_bits(s: Seq<u8>)
    ensures
        le_value(s) == bits_value(stream_bits(s)),
    decreases s.len(),
{
    if s.len() > 0 {
        let s1 = s.drop_last();
        let v = s.last();
        assert(s1.push(v) =~= s);
        lemma_le_value_bits(s1);
        lemma_stream_bits_push(s1, v);
        lemma_bits_value_concat(stream_bits(s1), stream_bits(seq![v]));
        lemma_byte_value(v);
        let p = pow2(8 * (s.len() - 1) as nat) as int;
        assert(p * (v as int) == (v as int) * p) by (nonlinear_arith);
    }
}

/// Bytes that pack bits have the value of those bits.
pub proof fn lemma_packs_value(out: Seq<u8>, b: Seq<bool>)
    requires
        packs(out, b),
    ensures
        le_value(out) == bits_value(b),
{
    let all = stream_bits(out);
    let tail = all.subrange(b.len() as int, all.len() as int);
    assert(b.len() <= all.len()) by {
        vstd::arithmetic::div_mod::lemma_fundamental_div_mod(b.len() + 7int, 8int);
    }
    assert(all =~= b + tail);
    lemma_bits_value_zero(tail);
    lemma_bits_value_concat(b, tail);
    lemma_le_value_bits(out);
    assert(pow2(b.len()) * 0 == 0) by (nonlinear_arith);
}

} // verus!

verus! {

/// Why decompression failed.
#[derive(Clone, Copy, Debug, PartialEq, Eq, Structural)]
pub enum DecodeError {
    /// The first code, or the first code after a clear code, could not be read.
    Stream(StreamError),
    /// A code names no word: the first code of a dictionary lies beyond its
    /// one-byte words, or the chain of earlier codes that spells a word leaves
    /// the dictionary or goes round in a circle.
    InvalidCode,
    /// The codes grew wider than 32 bits.
    TooWide,
}

/// The code of width `w` at bit `pos` of `b`, if there is a bit at `pos` and
/// `w` bits from there.
pub open spec fn read_code(b: Seq<bool>, pos: int, w: int) -> Option<nat> {
    if pos < b.len() && pos + w <= b.len() {
        Some(bits_value(b.subrange(pos, pos + w)))
    } else {
        None
    }
}

/// The byte that the first code of a dictionary stands for: the byte itself
/// below 256, zero for the clear and end codes.
pub open spec fn root_char(k: nat) -> u8 {
    if k < 256 {
        k as u8
    } else {
        0
    }
}

/// The decoder's first dictionary: every byte under its own code, then the
/// clear and end codes, each pointing to itself.
pub open spec fn start_dict() -> Seq<(u8, Option<usize>)> {
    Seq::new(258, |j: int| if j < 256 { (j as u8, None) } else { (0u8, Some(j as usize)) })
}

/// The decoder's dictionary after a clear code: every byte under its own code,
/// then the clear and end codes, each spelling a zero byte.
pub open spec fn fresh_dict() -> Seq<(u8, Option<usize>)> {
    Seq::new(258, |j: int| (root_char(j as nat), None))
}

/// The word of code `k` in the decoder's dictionary: its chain, followed at
/// most once per entry (a chain that ends does so within that many steps);
/// `None` where the chain leaves the dictionary or goes round in a circle.
pub open spec fn word_of(dict: Seq<(u8, Option<usize>)>, k: int) -> Option<Seq<u8>> {
    chain_word(dict, dict[k], dict.len())
}

/// The state of the decoder: its dictionary, the last code read and its word,
/// the width of codes, the position in the bits, and the bytes decoded so far.
pub struct DecState {
    pub dict: Seq<(u8, Option<usize>)>,
    pub prev_code: nat,
    pub prev_word: Seq<u8>,
    pub width: nat,
    pub pos: nat,
    pub out: Seq<u8>,
}

/// The decoder after reading the first code of a dictionary at `pos`.
pub open spec fn dec_begin(
    b: Seq<bool>,
    pos: nat,
    dict: Seq<(u8, Option<usize>)>,
    out: Seq<u8>,
) -> Result<DecState, DecodeError> {
    match read_code(b, pos as int, 9) {
        None => Err(DecodeError::Stream(StreamError::UnexpectedEof)),
        Some(k) => if k >= 258 {
            Err(DecodeError::InvalidCode)
        } else {
            Ok(
                DecState {
                    dict,
                    prev_code: k,
                    prev_word: seq![root_char(k)],
                    width: 9,
                    pos: pos + 9,
                    out: out.push(root_char(k)),
                },
            )
        },
    }
}

/// The decoder after the code `k`, whose word is `w`: it outputs `w` and files
/// the previous code followed by the first byte of `w` under the next code.
pub open spec fn dec_add(st: DecState, k: nat, w: Seq<u8>) -> DecState {
    let dict = st.dict.push((w[0], Some(st.prev_code as usize)));
    DecState {
        dict,
        prev_code: k,
        prev_word: w,
        width: if dict.len() + 1 == pow2(st.width) {
            st.width + 1
        } else {
            st.width
        },
        pos: st.pos + st.width,
        out: st.out + w,
    }
}

/// The rest of decoding from the state `st`: it stops with what it has at the
/// end code or where no further code can be read. A code past the last entry
/// stands for the previous word followed by its own first byte. Codes narrower
/// than 9 bits never occur; refusing them keeps every step moving forward.
pub open spec fn dec_loop(b: Seq<bool>, st: DecState) -> Result<Seq<u8>, DecodeError>
    decreases b.len() - st.pos,
{
    if st.width < 9 || st.width > 32 {
        Err(DecodeError::TooWide)
    } else {
        match read_code(b, st.pos as int, st.width as int) {
            None => Ok(st.out),
            Some(k) => if k == 256 {
                match dec_begin(b, st.pos + st.width, fresh_dict(), st.out) {
                    Err(e) => Err(e),
                    Ok(st2) => dec_loop(b, st2),
                }
            } else if k == 257 {
                Ok(st.out)
            } else if k < st.dict.len() {
                match word_of(st.dict, k as int) {
                    None => Err(DecodeError::InvalidCode),
                    Some(w) => dec_loop(b, dec_add(st, k, w)),
                }
            } else {
                dec_loop(b, dec_add(st, k, st.prev_word.push(st.prev_word[0])))
            },
        }
    }
}

/// What decompressing `data` gives.
pub open spec fn spec_decode(data: Seq<u8>) -> Result<Seq<u8>, DecodeError> {
    let b = stream_bits(data);
    match dec_begin(b, 0, start_dict(), Seq::empty()) {
        Err(e) => Err(e),
        Ok(st) => dec_loop(b, st),
    }
}

} // verus!

verus! {

/// A word spelled by a chain has at least one byte.
pub proof fn lemma_chain_nonempty(dict: Seq<(u8, Option<usize>)>, e: (u8, Option<usize>), f: nat)
    requires
        chain_word(dict, e, f) is Some,
    ensures
        (chain_word(dict, e, f)->0).len() > 0,
    decreases f,
{
    if let Some(p) = e.1 {
        lemma_chain_nonempty(dict, dict[p as int], (f - 1) as nat);
    }
}

/// Filing an entry keeps the words of the entries before it.
pub proof fn lemma_word_push(dict: Seq<(u8, Option<usize>)>, x: (u8, Option<usize>), j: int)
    requires
        0 <= j < dict.len(),
        word_of(dict, j) is Some,
    ensures
        word_of(dict.push(x), j) == word_of(dict, j),
{
    assert(dict.push(x)[j] == dict[j]);
    lemma_chain_push(dict, dict[j], dict.len(), x);
    lemma_chain_fuel(dict.push(x), dict[j], dict.len(), dict.len() + 1);
}

/// The word of a new entry that points to an earlier one.
pub proof fn lemma_word_new(dict: Seq<(u8, Option<usize>)>, c: u8, p: usize)
    requires
        p < dict.len(),
        word_of(dict, p as int) is Some,
    ensures
        word_of(dict.push((c, Some(p))), dict.len() as int) == Some(
            (word_of(dict, p as int)->0).push(c),
        ),
{
    let d2 = dict.push((c, Some(p)));
    assert(d2[dict.len() as int] == (c, Some(p)));
    assert(d2[p as int] == dict[p as int]);
    lemma_chain_push(dict, dict[p as int], dict.len(), (c, Some(p)));
}

/// Follows the chain of an entry at most once per entry of `dict`, and tells
/// whether it reaches a word of one byte.
pub fn word_ends(entry: &(u8, Option<usize>), dict: &[(u8, Option<usize>)]) -> (r: bool)
    ensures
        r == (chain_word(dict@, *entry, dict@.len()) is Some),
{
    let mut cur: (u8, Option<usize>) = *entry;
    let mut steps: usize = 0;
    while cur.1.is_some()
        invariant
            steps <= dict.len(),
            (chain_word(dict@, *entry, dict@.len()) is Some) == (chain_word(
                dict@,
                cur,
                (dict.len() - steps) as nat,
            ) is Some),
        decreases dict.len() - steps,
    {
        let p = cur.1.unwrap();
        if steps == dict.len() || p >= dict.len() {
            return false;
        }
        cur = dict[p];
        steps = steps + 1;
    }
    true
}

/// Appends the bytes of `w` to `out`.
fn append_bytes(out: &mut Vec<u8>, w: &Vec<u8>)
    ensures
        final(out)@ == old(out)@ + w@,
{
    let mut i: usize = 0;
    while i < w.len()
        invariant
            i <= w.len(),
            out@ == old(out)@ + w@.take(i as int),
        decreases w.len() - i,
    {
        out.push(w[i]);
        i = i + 1;
        proof {
            assert(out@ =~= old(out)@ + w@.take(i as int));
        }
    }
    proof {
        assert(w@.take(w.len() as int) =~= w@);
    }
}

/// A decoder dictionary of one-byte words: bytes under their own codes, then
/// the clear and end codes, which spell a zero byte after a clear code and
/// point to themselves before.
fn root_dict(cleared: bool) -> (r: Vec<(u8, Option<usize>)>)
    ensures
        r@ == if cleared {
            fresh_dict()
        } else {
            start_dict()
        },
{
    let mut dict: Vec<(u8, Option<usize>)> = Vec::new();
    let mut i: usize = 0;
    while i < 256
        invariant
            i <= 256,
            dict@.len() == i,
            forall|j: int| 0 <= j < i ==> dict@[j] == (j as u8, None::<usize>),
        decreases 256 - i,
    {
        dict.push((i as u8, None));
        i = i + 1;
    }
    if cleared {
        dict.push((0, None));
        dict.push((0, None));
        proof {
            assert(dict@ =~= fresh_dict());
        }
    } else {
        dict.push((0, Some(CLEAR_CODE)));
        dict.push((0, Some(END_CODE)));
        proof {
            assert(dict@ =~= start_dict());
        }
    }
    dict
}

/// Reads one code of `width` bits.
fn read_code_exec(ds: &mut BitStream, width: usize) -> (r: Option<usize>)
    requires
        old(ds).wf(),
        old(ds).mode_of() == Mode::Read,
        9 <= width <= 32,
    ensures
        final(ds).wf(),
        final(ds).mode_of() == Mode::Read,
        final(ds).bits() == old(ds).bits(),
        match r {
            Some(k) => {
                &&& read_code(old(ds).bits(), old(ds).position(), width as int) == Some(k as nat)
                &&& final(ds).position() == old(ds).position() + width
            },
            None => {
                &&& read_code(old(ds).bits(), old(ds).position(), width as int) is None
                &&& *final(ds) == *old(ds)
            },
        },
{
    proof {
        old(ds).lemma_wf();
    }
    match ds.read_bit_sequence(width) {
        Ok(seq) => {
            proof {
                lemma_packs_value(
                    seq@,
                    old(ds).bits().subrange(
                        old(ds).position(),
                        old(ds).position() + width,
                    ),
                );
            }
            assert((width + 7) / 8 <= 4) by (nonlinear_arith)
                requires
                    width <= 32,
            ;
            assert(seq@.len() == (width + 7) / 8);
            Some(from_le_bytes_to_u32(seq.as_slice()) as usize)
        },
        Err(_) => None,
    }
}

} // verus!

verus! {

/// Decompresses what `encode` wrote: reads codes, widening them by one bit
/// each time the next free code plus one reaches a power of two, starts a
/// fresh dictionary at a clear code, and stops at the end code or where no
/// further code can be read.
pub fn decode(data: Vec<u8>) -> (r: Result<Vec<u8>, DecodeError>)
    requires
        data.len() > 0,
        data.len() < usize::MAX,
    ensures
        match r {
            Ok(out) => spec_decode(data@) == Ok::<Seq<u8>, DecodeError>(out@),
            Err(e) => spec_decode(data@) == Err::<Seq<u8>, DecodeError>(e),
        },
{
    let ghost data0 = data@;
    let ghost b = stream_bits(data@);
    let mut ds = BitStream::new_file(data, Mode::Read);
    let mut dict = root_dict(false);
    let mut read_bits: usize = 9;
    let code = match read_code_exec(&mut ds, read_bits) {
        Some(k) => k,
        None => return Err(DecodeError::Stream(StreamError::UnexpectedEof)),
    };
    if code >= dict.len() {
        return Err(DecodeError::InvalidCode);
    }
    let first = dict[code];
    let mut out: Vec<u8> = Vec::new();
    out.push(first.0);
    let mut old_i: usize = code;
    let mut old_s: Vec<u8> = Vec::new();
    old_s.push(first.0);
    proof {
        ds.lemma_wf();
    }
    loop
        invariant
            data0 == data@,
            ds.wf(),
            ds.mode_of() == Mode::Read,
            ds.bits() == b,
            9 <= read_bits,
            old_s@.len() > 0,
            0 <= ds.position() <= b.len(),
            spec_decode(data0) == dec_loop(
                b,
                DecState {
                    dict: dict@,
                    prev_code: old_i as nat,
                    prev_word: old_s@,
                    width: read_bits as nat,
                    pos: ds.position() as nat,
                    out: out@,
                },
            ),
        decreases b.len() - ds.position(),
    {
        if read_bits > 32 {
            return Err(DecodeError::TooWide);
        }
        let ghost pos0 = ds.position();
        let ghost st = DecState {
            dict: dict@,
            prev_code: old_i as nat,
            prev_word: old_s@,
            width: read_bits as nat,
            pos: pos0 as nat,
            out: out@,
        };
        let code = match read_code_exec(&mut ds, read_bits) {
            Some(k) => k,
            None => {
                assert(read_code(b, st.pos as int, st.width as int) is None);
                assert(dec_loop(b, st) == Ok::<Seq<u8>, DecodeError>(out@));
                return Ok(out);
            },
        };
        proof {
            ds.lemma_wf();
        }
        if code == CLEAR_CODE {
            dict = root_dict(true);
            read_bits = 9;
            let code2 = match read_code_exec(&mut ds, read_bits) {
                Some(k) => k,
                None => return Err(DecodeError::Stream(StreamError::UnexpectedEof)),
            };
            if code2 >= dict.len() {
                return Err(DecodeError::InvalidCode);
            }
            let s = dict[code2];
            out.push(s.0);
            old_i = code2;
            old_s = Vec::new();
            old_s.push(s.0);
            proof {
                ds.lemma_wf();
            }
            continue ;
        }
        if code == END_CODE {
            return Ok(out);
        }
        let size = dict.len();
        if code < size {
            let s = dict[code];
            if !word_ends(&s, dict.as_slice()) {
                return Err(DecodeError::InvalidCode);
            }
            let word = get_word(&s, dict.as_slice());
            proof {
                lemma_chain_nonempty(dict@, dict@[code as int], dict@.len());
            }
            append_bytes(&mut out, &word);
            let c0 = word[0];
            dict.push((c0, Some(old_i)));
            old_i = code;
            old_s = word;
        } else {
            let c0 = old_s[0];
            old_s.push(c0);
            append_bytes(&mut out, &old_s);
            dict.push((c0, Some(old_i)));
            old_i = code;
        }
        proof {
            vstd::arithmetic::power2::lemma_pow2_strictly_increases(read_bits as nat, 64);
            lemma2_to64();
            vstd::bits::lemma_u64_shl_is_mul(1u64, read_bits as u64);
        }
        if dict.len() as u64 == (1u64 << (read_bits as u64)) - 1 {
            read_bits = read_bits + 1;
        }
    }
}

} // verus!
