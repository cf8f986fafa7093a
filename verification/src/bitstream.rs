//! A stream of bits over bytes: writes append bits, reads consume them, least
//! significant bit of every byte first.

use crate::bits::{
    bit_at,
    byte_bit,
    lemma_bit_at_byte,
    lemma_extend_byte,
    lemma_high_zero,
    lemma_join_bytes,
    lemma_put_all,
    lemma_put_low,
    lemma_put_low_high_zero,
    lemma_put_rest,
    lemma_put_rest_masked,
    lemma_shift_zero,
    lemma_split_index,
    lemma_store_byte,
    lemma_take_across,
    lemma_take_within,
    lemma_zero_byte,
    lemma_packs_masked,
    masked,
    packs,
    src_bit,
    stream_bits,
};
use vstd::prelude::*;

verus! {

/// Whether a stream reads the bits of its data or writes bits after it.
#[derive(Clone, Copy, Debug, PartialEq, Eq, Structural)]
pub enum Mode {
    Read,
    Write,
}

/// Why a stream operation did not take place.
#[derive(Clone, Copy, Debug, PartialEq, Eq, Structural)]
pub enum StreamError {
    /// Fewer bits remain than were asked for, or none at all.
    UnexpectedEof,
    /// The operation belongs to the other mode.
    WrongMode,
}

/// A bit stream. In `Read` mode it holds the bytes it reads and the position of
/// the next unread bit; in `Write` mode it holds the bytes written so far, the
/// last one possibly incomplete.
pub struct BitStream {
    buffer: Vec<u8>,
    index_buf: usize,
    point_bit: usize,
    mode: Mode,
}

/// What a writer's bytes, cut after its last written bit, hold.
proof fn lemma_close_packs(b0: Seq<u8>, idx: int, pb: int, out: Seq<u8>)
    requires
        0 <= pb < 8,
        0 <= idx,
        b0.len() == idx + 1,
        b0[idx] >> (pb as u8) == 0,
        out == b0.subrange(0, if pb == 0 { idx } else { idx + 1 }),
    ensures
        packs(out, stream_bits(b0).take(8 * idx + pb)),
{
    let b = stream_bits(b0).take(8 * idx + pb);
    let pos = 8 * idx + pb;
    if pb == 0 {
        lemma_split_index(pos + 7, idx, 7);
    } else {
        lemma_split_index(pos + 7, idx + 1, pb - 1);
    }
    assert forall|k: int| 0 <= k < 8 * out.len() implies bit_at(out, k) == (k < b.len() && b[k]) by {
        lemma_split_index(k, k / 8, k % 8);
        assert(out[k / 8] == b0[k / 8]);
        if k >= b.len() {
            lemma_bit_at_byte(b0, idx, k % 8);
            lemma_high_zero(b0[idx], pb as u8, (k % 8) as u8);
        }
    }
}

impl BitStream {
    /// The mode the stream was opened in.
    pub closed spec fn mode_of(self) -> Mode {
        self.mode
    }

    /// The number of bits read (`Read`) or written (`Write`) so far.
    pub closed spec fn position(self) -> int {
        8 * self.index_buf + self.point_bit
    }

    /// `Read`: every bit of the data; `Write`: every bit written so far.
    pub closed spec fn bits(self) -> Seq<bool> {
        match self.mode {
            Mode::Read => stream_bits(self.buffer@),
            Mode::Write => stream_bits(self.buffer@).take(self.position()),
        }
    }

    /// The bits a reader has not consumed yet.
    pub open spec fn unread(self) -> Seq<bool> {
        self.bits().subrange(self.position(), self.bits().len() as int)
    }

    /// The internal invariant of a stream.
    pub closed spec fn wf(self) -> bool {
        &&& self.point_bit < 8
        &&& match self.mode {
            Mode::Read => {
                &&& self.index_buf <= self.buffer.len()
                &&& self.index_buf == self.buffer.len() ==> self.point_bit == 0
            },
            Mode::Write => {
                &&& self.buffer.len() == self.index_buf + 1
                &&& self.buffer@[self.index_buf as int] >> (self.point_bit as u8) == 0
            },
        }
    }

    /// What the invariant gives a user of the stream.
    pub proof fn lemma_wf(self)
        requires
            self.wf(),
        ensures
            0 <= self.position() <= self.bits().len(),
            self.mode_of() == Mode::Write ==> self.position() == self.bits().len(),
    {
    }

    /// Opens a stream over the bytes of a file: in `Read` mode the stream
    /// reads `data` from its first bit; in `Write` mode it writes after `data`.
    pub fn new_file(data: Vec<u8>, mode: Mode) -> (s: Self)
        requires
            mode == Mode::Read ==> data.len() > 0,
            data.len() < usize::MAX,
        ensures
            s.wf(),
            s.mode_of() == mode,
            s.bits() == stream_bits(data@),
            s.position() == if mode == Mode::Read {
                0
            } else {
                8 * data.len()
            },
    {
        match mode {
            Mode::Read => BitStream { buffer: data, index_buf: 0, point_bit: 0, mode: Mode::Read },
            Mode::Write => {
                let mut buffer = data;
                let index_buf = buffer.len();
                buffer.push(0);
                proof {
                    lemma_shift_zero(0);
                    assert(stream_bits(buffer@).take(8 * index_buf) =~= stream_bits(data@)) by {
                        assert forall|k: int| 0 <= k < 8 * index_buf implies bit_at(buffer@, k)
                            == bit_at(data@, k) by {
                            lemma_split_index(k, k / 8, k % 8);
                        }
                    }
                }
                BitStream { buffer, index_buf, point_bit: 0, mode: Mode::Write }
            },
        }
    }

    /// Reads the next `bit_len` bits. The result holds them in order, least
    /// significant bit of every byte first, with the unused high bits of its
    /// last byte zero. A read that asks for more bits than remain, or any read
    /// once no bit remains, fails and leaves the stream as it was. A writer
    /// does not read: it answers with `(bit_len + 7) / 8` zero bytes and stays
    /// as it was.
    #[verifier::spinoff_prover]
    pub fn read_bit_sequence(&mut self, bit_len: usize) -> (r: Result<Vec<u8>, StreamError>)
        requires
            old(self).wf(),
        ensures
            final(self).wf(),
            final(self).mode_of() == old(self).mode_of(),
            final(self).bits() == old(self).bits(),
            r is Ok <==> (old(self).mode_of() == Mode::Write || (old(self).position() < old(
                self,
            ).bits().len() && old(self).position() + bit_len <= old(self).bits().len())),
            match r {
                Ok(seq) => if old(self).mode_of() == Mode::Write {
                    &&& seq@ == Seq::new(((bit_len + 7) / 8) as nat, |i: int| 0u8)
                    &&& *final(self) == *old(self)
                } else {
                    &&& packs(
                        seq@,
                        old(self).bits().subrange(
                            old(self).position(),
                            old(self).position() + bit_len,
                        ),
                    )
                    &&& final(self).position() == old(self).position() + bit_len
                },
                Err(e) => {
                    &&& *final(self) == *old(self)
                    &&& e == StreamError::UnexpectedEof
                },
            },
    {
        let bytes: usize = bit_len / 8 + if bit_len % 8 != 0 {
            1
        } else {
            0
        };
        if let Mode::Write = self.mode {
            let zeros: Vec<u8> = vec![0u8; bytes];
            proof {
                assert(zeros@ =~= Seq::new(((bit_len + 7) / 8) as nat, |i: int| 0u8));
            }
            return Ok(zeros);
        }
        let len = self.buffer.len();
        let avail: u128 = ((len - self.index_buf) as u128) * 8 - (self.point_bit as u128);
        if avail == 0 || (bit_len as u128) > avail {
            return Err(StreamError::UnexpectedEof);
        }
        let mut seq: Vec<u8> = vec![0u8; bytes];
        let copy: u8 = self.point_bit as u8;
        let mut idx: usize = self.index_buf;
        let mut rest: usize = bit_len;
        let mut i: usize = 0;
        let ghost b0 = self.buffer@;
        let ghost pos0 = self.position();
        let ghost s0 = *self;
        while rest >= 8
            invariant
                *self == s0,
                s0.wf(),
                s0.mode == Mode::Read,
                b0 == s0.buffer@,
                len == b0.len(),
                pos0 == s0.position(),
                copy == s0.point_bit,
                pos0 + bit_len <= 8 * len,
                seq.len() == bytes,
                bytes == (bit_len + 7) / 8,
                rest + 8 * i == bit_len,
                8 * idx + copy == pos0 + 8 * i,
                forall|k: int| 0 <= k < 8 * i ==> bit_at(seq@, k) == bit_at(b0, pos0 + k),
                forall|j: int| i <= j < bytes ==> seq@[j] == 0,
            decreases rest,
        {
            let ghost idx0 = idx;
            let mut v: u8 = self.buffer[idx] >> copy;
            idx = idx + 1;
            if copy != 0 {
                v = v | (self.buffer[idx] << (8 - copy));
            }
            proof {
                assert forall|t: u8| t < 8 implies byte_bit(v, t) == (t < 8 && bit_at(
                    b0,
                    pos0 + 8 * i + t,
                )) by {
                    if copy == 0 {
                        lemma_shift_zero(b0[idx0 as int]);
                        lemma_bit_at_byte(b0, idx0 as int, t as int);
                    } else {
                        lemma_join_bytes(b0[idx0 as int], b0[idx0 + 1], copy, t);
                        if t < 8 - copy {
                            lemma_bit_at_byte(b0, idx0 as int, t + copy);
                        } else {
                            lemma_bit_at_byte(b0, idx0 + 1, t + copy - 8);
                        }
                    }
                }
                lemma_store_byte(seq@, i as int, v, b0, pos0, 8);
            }
            seq.set(i, v);
            rest = rest - 8;
            i = i + 1;
        }
        if rest != 0 {
            let r: u8 = rest as u8;
            let shift: u8 = r + copy;
            let ghost idx0 = idx;
            let v: u8;
            if shift > 8 {
                let m: u8 = shift - 8;
                let mut w: u8 = self.buffer[idx] >> copy;
                idx = idx + 1;
                w = w | ((self.buffer[idx] & (0xffu8 >> (8 - m))) << (8 - copy));
                v = w;
                proof {
                    assert forall|t: u8| t < 8 implies byte_bit(v, t) == (t < r && bit_at(
                        b0,
                        pos0 + 8 * i + t,
                    )) by {
                        lemma_take_across(b0[idx0 as int], b0[idx0 + 1], copy, m, t);
                        if t < 8 - copy {
                            lemma_bit_at_byte(b0, idx0 as int, t + copy);
                        } else if t < r {
                            lemma_bit_at_byte(b0, idx0 + 1, t + copy - 8);
                        }
                    }
                }
            } else {
                v = (self.buffer[idx] >> copy) & (0xffu8 >> (8 - r));
                if shift == 8 {
                    idx = idx + 1;
                }
                proof {
                    assert forall|t: u8| t < 8 implies byte_bit(v, t) == (t < r && bit_at(
                        b0,
                        pos0 + 8 * i + t,
                    )) by {
                        lemma_take_within(b0[idx0 as int], copy, r, t);
                        if t < r {
                            lemma_bit_at_byte(b0, idx0 as int, t + copy);
                        }
                    }
                }
            }
            proof {
                lemma_store_byte(seq@, i as int, v, b0, pos0, r as int);
            }
            seq.set(i, v);
        }
        self.index_buf = idx;
        self.point_bit = (copy as usize + rest) % 8;
        proof {
            let sub = stream_bits(b0).subrange(pos0, pos0 + bit_len);
            assert forall|k: int| 0 <= k < 8 * seq@.len() implies bit_at(seq@, k) == (k
                < sub.len() && sub[k]) by {
                if k >= 8 * i + 8 {
                    lemma_split_index(k, k / 8, k % 8);
                    lemma_zero_byte((k % 8) as u8);
                }
            }
        }
        Ok(seq)
    }

    /// Writes the first `bit_len` bits of `seq` (least significant bit of every
    /// byte first) after the bits written so far. A reader does not write: it
    /// leaves itself as it was.
    #[verifier::spinoff_prover]
    pub fn write_bit_sequence(&mut self, seq: &[u8], bit_len: usize) -> (r: Result<(), StreamError>)
        requires
            old(self).wf(),
            old(self).mode_of() == Mode::Write ==> bit_len <= 8 * seq.len(),
        ensures
            final(self).wf(),
            final(self).mode_of() == old(self).mode_of(),
            r is Ok,
            old(self).mode_of() == Mode::Write ==> final(self).bits() == old(self).bits()
                + stream_bits(seq@).take(bit_len as int),
            old(self).mode_of() == Mode::Read ==> *final(self) == *old(self),
    {
        if let Mode::Read = self.mode {
            return Ok(());
        }
        let copy: u8 = self.point_bit as u8;
        let mut idx: usize = self.index_buf;
        let mut rest: usize = bit_len;
        let mut i: usize = 0;
        let ghost ob = self.buffer@;
        let ghost pos0 = self.position();
        let ghost s0 = *self;
        proof {
            assert forall|k: int| 0 <= k < pos0 implies bit_at(ob, k) == src_bit(ob, pos0, seq@, k) by {}
        }
        while rest >= 8
            invariant
                s0.wf(),
                s0.mode == Mode::Write,
                ob == s0.buffer@,
                pos0 == s0.position(),
                copy == s0.point_bit,
                self.mode == Mode::Write,
                self.index_buf == s0.index_buf,
                self.point_bit == s0.point_bit,
                bit_len <= 8 * seq.len(),
                self.buffer.len() == idx + 1,
                self.buffer@[idx as int] >> copy == 0,
                rest + 8 * i == bit_len,
                8 * idx + copy == pos0 + 8 * i,
                forall|k: int|
                    0 <= k < pos0 + 8 * i ==> bit_at(self.buffer@, k) == src_bit(ob, pos0, seq@, k),
            decreases rest,
        {
            let ghost b1 = self.buffer@;
            let ghost idx0 = idx;
            let x = seq[i];
            let p = self.buffer[idx];
            self.buffer.set(idx, p | (x << copy));
            idx = idx + 1;
            self.buffer.push(0);
            if copy != 0 {
                let q = self.buffer[idx];
                self.buffer.set(idx, q | (x >> (8 - copy)));
            }
            proof {
                let b2 = self.buffer@;
                lemma_shift_zero(0);
                assert forall|t: u8| t < 8 && 8 * idx0 + t < 8 * idx0 + 8 implies #[trigger] byte_bit(
                    b2[idx0 as int],
                    t,
                ) == src_bit(ob, pos0, seq@, 8 * idx0 + t) by {
                    lemma_put_all(p, x, copy, t);
                    if t < copy {
                        lemma_bit_at_byte(b1, idx0 as int, t as int);
                    } else {
                        lemma_bit_at_byte(seq@, i as int, t - copy);
                    }
                }
                lemma_extend_byte(b1, b2, idx0 as int, 8 * idx0 + 8, ob, pos0, seq@);
                if copy != 0 {
                    lemma_put_rest(x, copy, 0);
                    assert forall|t: u8| t < 8 && 8 * (idx0 + 1) + t < pos0 + 8 * (i + 1) implies #[trigger] byte_bit(
                        b2[idx0 + 1],
                        t,
                    ) == src_bit(ob, pos0, seq@, 8 * (idx0 + 1) + t) by {
                        lemma_put_rest(x, copy, t);
                        lemma_bit_at_byte(seq@, i as int, t + 8 - copy);
                    }
                    lemma_extend_byte(b2, b2, idx0 + 1, pos0 + 8 * (i + 1), ob, pos0, seq@);
                }
            }
            rest = rest - 8;
            i = i + 1;
        }
        if rest != 0 {
            let ghost b1 = self.buffer@;
            let ghost idx0 = idx;
            let r: u8 = rest as u8;
            let shift: u8 = r + copy;
            let x = seq[i];
            let p = self.buffer[idx];
            if shift > 8 {
                let m: u8 = shift - 8;
                self.buffer.set(idx, p | (x << copy));
                idx = idx + 1;
                self.buffer.push(0);
                let q = self.buffer[idx];
                self.buffer.set(idx, q | ((x >> (8 - copy)) & (0xffu8 >> (8 - m))));
                proof {
                    let b2 = self.buffer@;
                    lemma_put_rest_masked(x, copy, m, 0);
                    assert forall|t: u8| t < 8 && 8 * idx0 + t < 8 * idx0 + 8 implies #[trigger] byte_bit(
                        b2[idx0 as int],
                        t,
                    ) == src_bit(ob, pos0, seq@, 8 * idx0 + t) by {
                        lemma_put_all(p, x, copy, t);
                        if t < copy {
                            lemma_bit_at_byte(b1, idx0 as int, t as int);
                        } else {
                            lemma_bit_at_byte(seq@, i as int, t - copy);
                        }
                    }
                    lemma_extend_byte(b1, b2, idx0 as int, 8 * idx0 + 8, ob, pos0, seq@);
                    assert forall|t: u8| t < 8 && 8 * (idx0 + 1) + t < pos0 + bit_len implies #[trigger] byte_bit(
                        b2[idx0 + 1],
                        t,
                    ) == src_bit(ob, pos0, seq@, 8 * (idx0 + 1) + t) by {
                        lemma_put_rest_masked(x, copy, m, t);
                        lemma_bit_at_byte(seq@, i as int, t + 8 - copy);
                    }
                    lemma_extend_byte(b2, b2, idx0 + 1, pos0 + bit_len, ob, pos0, seq@);
                }
            } else {
                self.buffer.set(idx, p | ((x & (0xffu8 >> (8 - r))) << copy));
                if shift == 8 {
                    idx = idx + 1;
                    self.buffer.push(0);
                }
                proof {
                    let b2 = self.buffer@;
                    lemma_shift_zero(0);
                    if shift < 8 {
                        lemma_put_low_high_zero(p, x, copy, r);
                    }
                    assert forall|t: u8| t < 8 && 8 * idx0 + t < pos0 + bit_len implies #[trigger] byte_bit(
                        b2[idx0 as int],
                        t,
                    ) == src_bit(ob, pos0, seq@, 8 * idx0 + t) by {
                        lemma_put_low(p, x, copy, r, t);
                        if t < copy {
                            lemma_bit_at_byte(b1, idx0 as int, t as int);
                        } else {
                            lemma_bit_at_byte(seq@, i as int, t - copy);
                        }
                    }
                    lemma_extend_byte(b1, b2, idx0 as int, pos0 + bit_len, ob, pos0, seq@);
                }
            }
        }
        self.index_buf = idx;
        self.point_bit = (copy as usize + rest) % 8;
        proof {
            assert(self.bits() =~= s0.bits() + stream_bits(seq@).take(bit_len as int));
        }
        Ok(())
    }

    /// Finishes a writer: hands back every byte written, the unused high bits
    /// of the last one zero, and starts over with nothing written. A reader
    /// has nothing to hand back: it fails, after cutting its bytes after the
    /// byte that holds its position, so that later reads end there.
    pub fn close(&mut self) -> (r: Result<Vec<u8>, StreamError>)
        requires
            old(self).wf(),
        ensures
            final(self).wf(),
            final(self).mode_of() == old(self).mode_of(),
            r is Ok <==> old(self).mode_of() == Mode::Write,
            match r {
                Ok(out) => {
                    &&& packs(out@, old(self).bits())
                    &&& final(self).bits() == Seq::<bool>::empty()
                },
                Err(e) => {
                    &&& e == StreamError::WrongMode
                    &&& final(self).position() == old(self).position()
                    &&& final(self).bits() == old(self).bits().take(
                        8 * ((old(self).position() + 7) / 8),
                    )
                },
            },
    {
        if let Mode::Read = self.mode {
            let keep: usize = if self.point_bit == 0 {
                self.index_buf
            } else {
                self.index_buf + 1
            };
            let ghost b0 = self.buffer@;
            let ghost pos = self.position();
            self.buffer.truncate(keep);
            proof {
                if self.point_bit == 0 {
                    lemma_split_index(pos + 7, keep as int, 7);
                } else {
                    lemma_split_index(pos + 7, keep as int, self.point_bit - 1);
                }
                assert(stream_bits(self.buffer@) =~= stream_bits(b0).take(8 * keep)) by {
                    assert forall|k: int| 0 <= k < 8 * keep implies bit_at(self.buffer@, k)
                        == bit_at(b0, k) by {
                        lemma_split_index(k, k / 8, k % 8);
                    }
                }
            }
            return Err(StreamError::WrongMode);
        }
        let keep: usize = if self.point_bit == 0 {
            self.index_buf
        } else {
            self.index_buf + 1
        };
        let ghost b0 = self.buffer@;
        let ghost s0 = *self;
        let mut out: Vec<u8> = Vec::new();
        out.push(0);
        std::mem::swap(&mut out, &mut self.buffer);
        out.truncate(keep);
        self.index_buf = 0;
        self.point_bit = 0;
        proof {
            lemma_shift_zero(0);
            assert(self.bits() =~= Seq::<bool>::empty());
            lemma_close_packs(b0, s0.index_buf as int, s0.point_bit as int, out@);
            assert(s0.bits() == stream_bits(b0).take(8 * s0.index_buf + s0.point_bit));
        }
        Ok(out)
    }
}

} // verus!

verus! {

/// Reading back what a writer wrote: a reader over the bytes that `close`
/// handed back starts with every bit written, in order, followed by fewer than
/// eight bits, all zero.
pub proof fn lemma_read_after_write(w: BitStream, out: Seq<u8>, r: BitStream)
    requires
        w.wf(),
        w.mode_of() == Mode::Write,
        packs(out, w.bits()),
        r.wf(),
        r.mode_of() == Mode::Read,
        r.bits() == stream_bits(out),
        r.position() == 0,
    ensures
        r.unread().take(w.bits().len() as int) == w.bits(),
        w.bits().len() <= r.unread().len() < w.bits().len() + 8,
        forall|k: int| w.bits().len() <= k < r.unread().len() ==> !r.unread()[k],
{
    let b = w.bits();
    let u = r.unread();
    assert(u =~= stream_bits(out));
    assert(b.len() <= u.len() < b.len() + 8) by {
        vstd::arithmetic::div_mod::lemma_fundamental_div_mod(b.len() + 7int, 8int);
    }
    assert(u.take(b.len() as int) =~= b);
}

} // verus!

verus! {

/// The bits that writing the parts `(bytes, length)` one after the other
/// appends: the first `length` bits of each part's bytes, in order.
pub open spec fn parts_bits(parts: Seq<(Seq<u8>, nat)>) -> Seq<bool>
    decreases parts.len(),
{
    if parts.len() == 0 {
        Seq::empty()
    } else {
        parts_bits(parts.drop_last()) + stream_bits(parts.last().0).take(parts.last().1 as int)
    }
}

proof fn lemma_parts_prefix(parts: Seq<(Seq<u8>, nat)>, k: int)
    requires
        0 <= k <= parts.len(),
        forall|i: int| 0 <= i < parts.len() ==> #[trigger] parts[i].1 <= 8 * parts[i].0.len(),
    ensures
        parts_bits(parts.take(k)).len() <= parts_bits(parts).len(),
        parts_bits(parts).take(parts_bits(parts.take(k)).len() as int) == parts_bits(parts.take(k)),
    decreases parts.len() - k,
{
    if k == parts.len() {
        assert(parts.take(k) =~= parts);
        assert(parts_bits(parts).take(parts_bits(parts).len() as int) =~= parts_bits(parts));
    } else {
        lemma_parts_prefix(parts, k + 1);
        assert(parts.take(k + 1).drop_last() =~= parts.take(k));
        let a = parts_bits(parts.take(k));
        let b = parts_bits(parts.take(k + 1));
        assert(b.take(a.len() as int) =~= a);
        assert(parts_bits(parts).take(a.len() as int) =~= b.take(a.len() as int));
    }
}

/// Reading back several writes: when a writer wrote the parts `(bytes,
/// length)` in order after nothing, and a reader is opened on what `close`
/// handed back, then at the offset of part `k` (the bits of the parts before
/// it) the reader holds exactly the bits that part `k` wrote, and any bytes
/// that pack them, such as what reading that many bits there returns, are the
/// part's bytes cut to `(length + 7) / 8` with every bit from `length` on
/// cleared.
pub proof fn lemma_read_back_parts(
    w: BitStream,
    parts: Seq<(Seq<u8>, nat)>,
    out: Seq<u8>,
    r: BitStream,
    k: int,
)
    requires
        w.wf(),
        w.mode_of() == Mode::Write,
        w.bits() == parts_bits(parts),
        forall|i: int| 0 <= i < parts.len() ==> #[trigger] parts[i].1 <= 8 * parts[i].0.len(),
        packs(out, w.bits()),
        r.wf(),
        r.mode_of() == Mode::Read,
        r.bits() == stream_bits(out),
        0 <= k < parts.len(),
    ensures
        ({
            let off = parts_bits(parts.take(k)).len() as int;
            let n = parts[k].1 as int;
            &&& off + n <= r.bits().len()
            &&& r.bits().subrange(off, off + n) == stream_bits(parts[k].0).take(n)
            &&& forall|t: Seq<u8>|
                #[trigger] packs(t, r.bits().subrange(off, off + n)) ==> t == masked(
                    parts[k].0,
                    parts[k].1,
                )
        }),
{
    let off = parts_bits(parts.take(k)).len() as int;
    let n = parts[k].1 as int;
    let seg = stream_bits(parts[k].0).take(n);
    lemma_parts_prefix(parts, k + 1);
    assert(parts.take(k + 1).drop_last() =~= parts.take(k));
    assert(parts.take(k + 1).last() == parts[k]);
    let upto = parts_bits(parts.take(k + 1));
    assert(upto =~= parts_bits(parts.take(k)) + seg);
    let bb = parts_bits(parts);
    assert(bb.len() <= r.bits().len()) by {
        vstd::arithmetic::div_mod::lemma_fundamental_div_mod(bb.len() + 7int, 8int);
    }
    assert(r.bits().subrange(off, off + n) =~= seg) by {
        assert forall|j: int| 0 <= j < n implies r.bits()[off + j] == seg[j] by {
            assert(upto[off + j] == seg[j]);
            assert(bb[off + j] == upto[off + j]);
        }
    }
    assert forall|t: Seq<u8>| #[trigger] packs(t, r.bits().subrange(off, off + n)) implies t
        == masked(parts[k].0, parts[k].1) by {
        lemma_packs_masked(t, parts[k].0, parts[k].1);
    }
}

} // verus!
