//! The LEB128 wire format: groups of seven data bits with a continuation bit,
//! least-significant group first. One spec function fixes the encoding of
//! every unsigned value; all encoder strategies are proved to produce exactly
//! that byte sequence and all decoder strategies to recover exactly the value
//! it encodes.

use vstd::prelude::*;
use vstd::arithmetic::power2::{
    pow2, lemma_pow2_adds, lemma_pow2_pos, lemma_pow2_strictly_increases, lemma2_to64,
};
use vstd::arithmetic::div_mod::lemma_fundamental_div_mod;
use crate::writer::{
    write_seq, write_byte_seq, write_to_vec, write_slice_to_vec_skewed, lemma_write_seq_empty,
    lemma_write_seq_singleton, lemma_write_seq_concat, lemma_write_seq_len,
};
use crate::bitops::{
    lemma_u128_low7, lemma_u8_set_high_bit, lemma_u8_high_bit, lemma_u128_or_shl_is_add,
};
use vstd::arithmetic::mul::lemma_mul_inequality;

verus! {

/// The LEB128 encoding of `v`: the low seven bits with the high bit set while
/// more groups follow, then the remaining groups of `v / 128`.
pub open spec fn leb128(v: nat) -> Seq<u8>
    decreases v,
{
    if v < 128 {
        seq![v as u8]
    } else {
        seq![((v % 128) + 128) as u8].add(leb128(v / 128))
    }
}

/// The number of bytes in the LEB128 encoding of `v`.
pub open spec fn leb128_len(v: nat) -> nat
    decreases v,
{
    if v < 128 {
        1
    } else {
        (1 + leb128_len(v / 128)) as nat
    }
}

/// The encoding of `v` starts at `pos` in `s`.
pub open spec fn is_leb128_at(s: Seq<u8>, pos: int, v: nat) -> bool {
    &&& 0 <= pos
    &&& pos + leb128_len(v) <= s.len()
    &&& s.subrange(pos, pos + leb128_len(v) as int) == leb128(v)
}

/// The number of bits needed to represent `v`.
pub open spec fn bit_len(v: nat) -> nat
    decreases v,
{
    if v == 0 {
        0
    } else {
        (1 + bit_len(v / 2)) as nat
    }
}

/// `leb128_len` counts the bytes of `leb128`, and every encoding has at
/// least one byte.
pub proof fn lemma_leb128_len(v: nat)
    ensures
        leb128(v).len() == leb128_len(v),
        1 <= leb128_len(v),
    decreases v,
{
    if v >= 128 {
        lemma_leb128_len(v / 128);
    }
}

/// Values below `pow2(7 * n)` encode in at most `n` bytes.
pub proof fn lemma_leb128_len_bound(v: nat, n: nat)
    requires
        1 <= n,
        v < pow2(7 * n),
    ensures
        leb128_len(v) <= n,
    decreases n,
{
    if v < 128 {
    } else {
        lemma_pow2_adds(7, 7 * (n - 1) as nat);
        lemma2_to64();
        assert(pow2(7 * n) == 128 * pow2((7 * (n - 1)) as nat));
        assert(v / 128 < pow2((7 * (n - 1)) as nat)) by (nonlinear_arith)
            requires
                v < 128 * pow2((7 * (n - 1)) as nat),
        ;
        assert(n >= 2) by {
            lemma_pow2_pos(7 * (n - 1) as nat);
            if n == 1 {
                assert(pow2(7 * n) == 128);
            }
        }
        lemma_leb128_len_bound(v / 128, (n - 1) as nat);
    }
}

/// Every value a `u128` can hold encodes in at most nineteen bytes.
pub proof fn lemma_leb128_len_max(v: nat)
    requires
        v <= u128::MAX,
    ensures
        leb128_len(v) <= 19,
{
    crate::bitops::lemma_pow2_128();
    lemma_pow2_strictly_increases(128, 133);
    lemma_leb128_len_bound(v, 19);
}

/// Reads the first byte of an encoding found at `pos`: a byte below 128 is
/// the whole value, one at or above 128 carries the low seven bits and is
/// followed by the encoding of the remaining groups.
pub proof fn lemma_leb128_at_first(s: Seq<u8>, pos: int, v: nat)
    requires
        is_leb128_at(s, pos, v),
    ensures
        pos < s.len(),
        v < 128 ==> s[pos] == v as u8 && leb128_len(v) == 1,
        v >= 128 ==> s[pos] == ((v % 128) + 128) as u8 && is_leb128_at(s, pos + 1, v / 128)
            && leb128_len(v) == 1 + leb128_len(v / 128),
{
    lemma_leb128_len(v);
    assert(s.subrange(pos, pos + leb128_len(v) as int)[0] == s[pos]);
    if v >= 128 {
        lemma_leb128_len(v / 128);
        let sub = s.subrange(pos + 1, pos + 1 + leb128_len(v / 128) as int);
        assert(sub =~= leb128(v / 128)) by {
            assert forall|i: int| 0 <= i < sub.len() implies sub[i] == leb128(v / 128)[i] by {
                assert(s.subrange(pos, pos + leb128_len(v) as int)[i + 1] == s[pos + 1 + i]);
            }
        }
    }
}

/// At most one value's encoding starts at a given position: the law that
/// makes every decoding unambiguous, so that any decoder reading an encoder's
/// output returns exactly the value that was encoded.
pub proof fn lemma_leb128_at_unique(s: Seq<u8>, pos: int, v1: nat, v2: nat)
    requires
        is_leb128_at(s, pos, v1),
        is_leb128_at(s, pos, v2),
    ensures
        v1 == v2,
    decreases v1,
{
    lemma_leb128_at_first(s, pos, v1);
    lemma_leb128_at_first(s, pos, v2);
    if v1 < 128 && v2 < 128 {
    } else if v1 >= 128 && v2 >= 128 {
        lemma_leb128_at_unique(s, pos + 1, v1 / 128, v2 / 128);
        lemma_fundamental_div_mod(v1 as int, 128);
        lemma_fundamental_div_mod(v2 as int, 128);
    } else {
        assert(false);
    }
}

/// Round-trip: after an encoder writes `leb128(v)` at `pos`, the encoding of
/// `v` — and, by `lemma_leb128_at_unique`, only of `v` — stands at `pos`, so
/// a decoder reading there returns `v` and its encoded length.
pub proof fn lemma_leb128_round_trip(buf: Seq<u8>, pos: int, v: nat)
    requires
        0 <= pos <= buf.len(),
    ensures
        is_leb128_at(write_seq(buf, pos, leb128(v)), pos, v),
{
    lemma_leb128_len(v);
    let written = write_seq(buf, pos, leb128(v));
    assert(written.subrange(pos, pos + leb128_len(v) as int) =~= leb128(v));
}

/// Dividing by 128 drops seven bits from the bit length.
proof fn lemma_bit_len_div128(v: nat)
    requires
        v >= 128,
    ensures
        bit_len(v) == 7 + bit_len(v / 128),
{
    assert(v / 2 / 2 == v / 4) by (nonlinear_arith);
    assert(v / 4 / 2 == v / 8) by (nonlinear_arith);
    assert(v / 8 / 2 == v / 16) by (nonlinear_arith);
    assert(v / 16 / 2 == v / 32) by (nonlinear_arith);
    assert(v / 32 / 2 == v / 64) by (nonlinear_arith);
    assert(v / 64 / 2 == v / 128) by (nonlinear_arith);
    assert(bit_len(v) == 1 + bit_len(v / 2));
    assert(bit_len(v / 2) == 1 + bit_len(v / 4));
    assert(bit_len(v / 4) == 1 + bit_len(v / 8));
    assert(bit_len(v / 8) == 1 + bit_len(v / 16));
    assert(bit_len(v / 16) == 1 + bit_len(v / 32));
    assert(bit_len(v / 32) == 1 + bit_len(v / 64));
    assert(bit_len(v / 64) == 1 + bit_len(v / 128));
}

/// Minimality: the encoded byte length is the number of seven-bit groups the
/// value needs, and never less than one.
pub proof fn lemma_leb128_minimal(v: nat)
    ensures
        leb128(v).len() == if bit_len(v) == 0 {
            1nat
        } else {
            ((bit_len(v) + 6) / 7) as nat
        },
        leb128(v).len() >= 1,
    decreases v,
{
    lemma_leb128_len(v);
    if v < 128 {
        assert(bit_len(v) <= 7) by {
            reveal_with_fuel(bit_len, 9);
        }
    } else {
        lemma_bit_len_div128(v);
        lemma_leb128_minimal(v / 128);
        assert(bit_len(v / 128) != 0) by {
            if v / 128 == 0 {
            }
        }
    }
}

/// Reference-loop encoder: one byte per iteration of an unbounded loop,
/// testing after each shift whether the remaining value is zero.
pub fn write_leb128_ref(out: &mut Vec<u8>, start_position: usize, value: u128) -> (n: usize)
    requires
        start_position <= old(out).len(),
        start_position + leb128_len(value as nat) <= usize::MAX,
    ensures
        final(out)@ == write_seq(old(out)@, start_position as int, leb128(value as nat)),
        n == leb128_len(value as nat),
{
    let ghost buf0 = out@;
    let ghost pos0 = start_position as int;
    let ghost big_v = value as nat;
    let ghost mut written: Seq<u8> = Seq::empty();
    let mut v = value;
    let mut position = start_position;
    proof {
        lemma_write_seq_empty(buf0, pos0);
    }
    loop
        invariant
            buf0 == old(out)@,
            pos0 == start_position as int,
            big_v == value as nat,
            0 <= pos0 <= buf0.len(),
            position == pos0 + written.len(),
            leb128(big_v) == written.add(leb128(v as nat)),
            leb128_len(big_v) == written.len() + leb128_len(v as nat),
            pos0 + leb128_len(big_v) <= usize::MAX,
            out@ == write_seq(buf0, pos0, written),
        decreases v,
    {
        let ghost v_pre = v as nat;
        proof {
            lemma_leb128_len(v as nat);
            lemma_leb128_len(big_v);
            lemma_write_seq_len(buf0, pos0, written);
            lemma_u128_low7(v);
        }
        let mut byte = (v & 0b0111_1111) as u8;
        v = v >> 7;
        let ghost buf_pre = out@;
        if v == 0 {
            write_to_vec(out, position, byte);
            proof {
                assert(v_pre < 128);
                assert(leb128(v_pre) =~= seq![byte]);
                lemma_write_seq_singleton(buf_pre, position as int, byte);
                lemma_write_seq_concat(buf0, pos0, written, seq![byte]);
                assert(written.add(seq![byte]) =~= leb128(big_v));
            }
            return (1 + position) - start_position;
        } else {
            proof {
                lemma_u8_set_high_bit(byte);
            }
            byte = byte | 0b1000_0000;
            write_to_vec(out, position, byte);
            proof {
                lemma_write_seq_singleton(buf_pre, position as int, byte);
                lemma_write_seq_concat(buf0, pos0, written, seq![byte]);
                written = written.push(byte);
                assert(written =~= written.drop_last().add(seq![byte]));
                lemma_leb128_len(v as nat);
            }
        }
        position = position + 1;
    }
}

/// Fixed-iteration encoder: a loop bounded by the statically known maximum
/// byte count for the value's width fills a local buffer, which is flushed in
/// one bulk write once the true byte count is known.
pub fn write_leb128_fixed(
    out: &mut Vec<u8>,
    start_position: usize,
    value: u128,
    max_bytes: usize,
) -> (n: usize)
    requires
        start_position <= old(out).len(),
        leb128_len(value as nat) <= max_bytes,
        start_position + max_bytes <= usize::MAX,
    ensures
        final(out)@ == write_seq(old(out)@, start_position as int, leb128(value as nat)),
        n == leb128_len(value as nat),
{
    let ghost big_v = value as nat;
    let mut buf: Vec<u8> = Vec::new();
    let mut v = value;
    let mut i: usize = 0;
    loop
        invariant_except_break
            big_v == value as nat,
            i == buf@.len(),
            i < max_bytes,
            leb128(big_v) == buf@.add(leb128(v as nat)),
            leb128_len(big_v) == buf@.len() + leb128_len(v as nat),
            leb128_len(big_v) <= max_bytes,
        ensures
            buf@ == leb128(big_v),
            buf@.len() == leb128_len(big_v),
        decreases v,
    {
        proof {
            lemma_leb128_len(v as nat);
            lemma_leb128_len(big_v);
            lemma_u128_low7(v);
        }
        let ghost v_pre = v as nat;
        let mut byte = (v & 0x7f) as u8;
        v = v >> 7;
        if v != 0 {
            proof {
                lemma_u8_set_high_bit(byte);
            }
            byte = byte | 0x80;
        }
        let ghost buf_pre = buf@;
        buf.push(byte);
        i = i + 1;
        if v == 0 {
            proof {
                assert(v_pre < 128);
                assert(leb128(v_pre) =~= seq![byte]);
                assert(buf@ =~= buf_pre.add(seq![byte]));
                assert(buf@ =~= leb128(big_v));
                lemma_leb128_len(big_v);
            }
            break;
        }
        proof {
            assert(buf@ =~= buf_pre.add(seq![byte]));
            lemma_leb128_len(v as nat);
        }
    }
    write_slice_to_vec_skewed(out, start_position, buf.as_slice());
    buf.len()
}

/// A byte-at-a-time sink for the callback-style encoder: it owns a byte
/// buffer and maps the encoder's relative positions to positions at or after
/// `sink_start()`, overwriting existing bytes and appending past the end.
pub trait ByteSink {
    /// The sink is in a usable state.
    spec fn sink_inv(&self) -> bool;

    /// The offset the sink adds to every relative position.
    spec fn sink_start(&self) -> int;

    /// The bytes the sink currently holds.
    spec fn sink_bytes(&self) -> Seq<u8>;

    /// Writes `byte` at relative `position`.
    fn write_at(&mut self, position: usize, byte: u8)
        requires
            old(self).sink_inv(),
            old(self).sink_start() + position <= old(self).sink_bytes().len(),
            old(self).sink_start() + position <= usize::MAX,
        ensures
            final(self).sink_inv(),
            final(self).sink_start() == old(self).sink_start(),
            final(self).sink_bytes() == write_byte_seq(
                old(self).sink_bytes(),
                old(self).sink_start() + position,
                byte,
            ),
    ;
}

/// A sink that writes into an owned byte buffer starting at a fixed offset.
pub struct VecSink {
    pub buf: Vec<u8>,
    pub start: usize,
}

impl ByteSink for VecSink {
    open spec fn sink_inv(&self) -> bool {
        self.start <= self.buf@.len()
    }

    open spec fn sink_start(&self) -> int {
        self.start as int
    }

    open spec fn sink_bytes(&self) -> Seq<u8> {
        self.buf@
    }

    fn write_at(&mut self, position: usize, byte: u8) {
        let index = self.start + position;
        if index == self.buf.len() {
            self.buf.push(byte);
        } else {
            self.buf.set(index, byte);
        }
    }
}

/// Callback-style encoder: the fixed bit-shifting logic shared by all widths,
/// decoupled from the buffer by a byte-at-a-time sink. Each byte is handed to
/// the sink under its relative position, starting at zero.
pub fn write_unsigned_leb128_to<W: ByteSink>(value: u128, write: &mut W) -> (n: usize)
    requires
        old(write).sink_inv(),
        0 <= old(write).sink_start() <= old(write).sink_bytes().len(),
        old(write).sink_start() + leb128_len(value as nat) <= usize::MAX,
    ensures
        final(write).sink_inv(),
        final(write).sink_start() == old(write).sink_start(),
        final(write).sink_bytes() == write_seq(
            old(write).sink_bytes(),
            old(write).sink_start(),
            leb128(value as nat),
        ),
        n == leb128_len(value as nat),
{
    let ghost buf0 = write.sink_bytes();
    let ghost pos0 = write.sink_start();
    let ghost big_v = value as nat;
    let ghost mut written: Seq<u8> = Seq::empty();
    let mut v = value;
    let mut position: usize = 0;
    proof {
        lemma_write_seq_empty(buf0, pos0);
    }
    loop
        invariant
            buf0 == old(write).sink_bytes(),
            pos0 == old(write).sink_start(),
            big_v == value as nat,
            write.sink_inv(),
            write.sink_start() == pos0,
            0 <= pos0 <= buf0.len(),
            position == written.len(),
            leb128(big_v) == written.add(leb128(v as nat)),
            leb128_len(big_v) == written.len() + leb128_len(v as nat),
            pos0 + leb128_len(big_v) <= usize::MAX,
            write.sink_bytes() == write_seq(buf0, pos0, written),
        decreases v,
    {
        proof {
            lemma_leb128_len(v as nat);
            lemma_leb128_len(big_v);
            lemma_write_seq_len(buf0, pos0, written);
            lemma_u128_low7(v);
        }
        let ghost v_pre = v as nat;
        let mut byte = (v & 0x7f) as u8;
        v = v >> 7;
        if v != 0 {
            proof {
                lemma_u8_set_high_bit(byte);
            }
            byte = byte | 0x80;
        }
        let ghost buf_pre = write.sink_bytes();
        write.write_at(position, byte);
        position = position + 1;
        proof {
            lemma_write_seq_singleton(buf_pre, pos0 + written.len(), byte);
            lemma_write_seq_concat(buf0, pos0, written, seq![byte]);
            written = written.push(byte);
            assert(written =~= written.drop_last().add(seq![byte]));
        }
        if v == 0 {
            proof {
                assert(v_pre < 128);
                assert(leb128(v_pre) =~= seq![byte]);
                assert(written =~= leb128(big_v));
                lemma_leb128_len(big_v);
            }
            return position;
        }
        proof {
            lemma_leb128_len(v as nat);
        }
    }
}

/// The callback-style encoder applied to a byte buffer: the buffer is handed
/// to a `VecSink` at `start_position` and taken back after the shared
/// bit-shifting core has written through it.
pub fn write_leb128_callback(out: &mut Vec<u8>, start_position: usize, value: u128) -> (n: usize)
    requires
        start_position <= old(out).len(),
        start_position + leb128_len(value as nat) <= usize::MAX,
    ensures
        final(out)@ == write_seq(old(out)@, start_position as int, leb128(value as nat)),
        n == leb128_len(value as nat),
{
    let mut taken: Vec<u8> = Vec::new();
    core::mem::swap(out, &mut taken);
    let mut sink = VecSink { buf: taken, start: start_position };
    let n = write_unsigned_leb128_to(value, &mut sink);
    let VecSink { buf, start: _ } = sink;
    *out = buf;
    n
}

/// Reserved-capacity encoder: reserves the worst-case byte count up front,
/// grows the buffer once to cover it, writes each byte by plain indexing at
/// increasing positions, and sets the final length in one step at the end.
pub fn write_leb128_reserved(
    out: &mut Vec<u8>,
    start_position: usize,
    value: u128,
    max_bytes: usize,
) -> (n: usize)
    requires
        start_position <= old(out).len(),
        leb128_len(value as nat) <= max_bytes,
        start_position + max_bytes <= usize::MAX,
    ensures
        final(out)@ == write_seq(old(out)@, start_position as int, leb128(value as nat)),
        n == leb128_len(value as nat),
{
    let ghost buf0 = out@;
    let ghost pos0 = start_position as int;
    let ghost big_v = value as nat;
    out.reserve(max_bytes);
    let initial_len = out.len();
    if out.len() < start_position + max_bytes {
        out.resize(start_position + max_bytes, 0);
        proof {
            assert forall|k: int| buf0.len() <= k < out@.len() implies out@[k] == 0u8 by {
                assert(vstd::pervasive::cloned::<u8>(0u8, out@[k]));
            }
            assert(out@.subrange(0, buf0.len() as int) =~= buf0);
        }
    }
    let ghost grown = out@;
    let ghost mut written: Seq<u8> = Seq::empty();
    let mut v = value;
    let mut position = start_position;
    proof {
        lemma_leb128_len(big_v);
    }
    loop
        invariant_except_break
            leb128(big_v) == written.add(leb128(v as nat)),
            leb128_len(big_v) == written.len() + leb128_len(v as nat),
        invariant
            buf0 == old(out)@,
            pos0 == start_position as int,
            big_v == value as nat,
            0 <= pos0 <= buf0.len(),
            initial_len == buf0.len(),
            position == pos0 + written.len(),
            written.len() <= leb128_len(big_v),
            pos0 + leb128_len(big_v) <= pos0 + max_bytes <= usize::MAX,
            out@.len() == grown.len(),
            grown.len() >= pos0 + max_bytes,
            grown.len() >= buf0.len(),
            forall|k: int| 0 <= k < buf0.len() && !(pos0 <= k < position) ==> out@[k] == buf0[k],
            forall|k: int| 0 <= k < written.len() ==> out@[pos0 + k] == written[k],
        ensures
            written == leb128(big_v),
            position == pos0 + leb128_len(big_v),
        decreases v,
    {
        proof {
            lemma_leb128_len(v as nat);
            lemma_leb128_len(big_v);
            lemma_u128_low7(v);
        }
        let ghost v_pre = v as nat;
        let mut byte = (v & 0x7f) as u8;
        v = v >> 7;
        if v != 0 {
            proof {
                lemma_u8_set_high_bit(byte);
            }
            byte = byte | 0x80;
        }
        out.set(position, byte);
        position = position + 1;
        proof {
            written = written.push(byte);
        }
        if v == 0 {
            proof {
                assert(v_pre < 128);
                assert(leb128(v_pre) =~= seq![byte]);
                assert(written =~= leb128(big_v));
                lemma_leb128_len(big_v);
            }
            break;
        }
        proof {
            lemma_leb128_len(v as nat);
        }
    }
    let bytes_written = position - start_position;
    let final_len = if initial_len > position {
        initial_len
    } else {
        position
    };
    out.truncate(final_len);
    proof {
        assert(out@ =~= write_seq(buf0, pos0, leb128(big_v)));
    }
    bytes_written
}

/// Selects one of the four LEB128 encoder code paths; all produce the same
/// bytes and return the same count.
#[derive(Clone, Copy, PartialEq, Eq, Debug)]
pub enum EncodeStrategy {
    /// Unbounded loop, one overwrite-or-push write per byte.
    Reference,
    /// Loop bounded by the width's maximum byte count, one bulk flush.
    Fixed,
    /// Shared bit-shifting core writing through a byte-at-a-time sink.
    Callback,
    /// Worst-case reservation up front, indexed writes, one length update.
    Reserved,
}

/// Encodes `value` at `start_position` using the chosen strategy.
/// `max_bytes` bounds the encoded length; the statically known maximum for
/// the value's width satisfies it.
pub fn write_leb128(
    out: &mut Vec<u8>,
    start_position: usize,
    value: u128,
    max_bytes: usize,
    strategy: EncodeStrategy,
) -> (n: usize)
    requires
        start_position <= old(out).len(),
        leb128_len(value as nat) <= max_bytes,
        start_position + max_bytes <= usize::MAX,
    ensures
        final(out)@ == write_seq(old(out)@, start_position as int, leb128(value as nat)),
        n == leb128_len(value as nat),
{
    match strategy {
        EncodeStrategy::Reference => write_leb128_ref(out, start_position, value),
        EncodeStrategy::Fixed => write_leb128_fixed(out, start_position, value, max_bytes),
        EncodeStrategy::Callback => write_leb128_callback(out, start_position, value),
        EncodeStrategy::Reserved => write_leb128_reserved(out, start_position, value, max_bytes),
    }
}

/// The maximum encoded byte count for a 16-bit value.
pub const MAX_LEB128_LEN_U16: usize = 3;

/// The maximum encoded byte count for a 32-bit value.
pub const MAX_LEB128_LEN_U32: usize = 5;

/// The maximum encoded byte count for a 64-bit value.
pub const MAX_LEB128_LEN_U64: usize = 10;

/// The maximum encoded byte count for a 128-bit value.
pub const MAX_LEB128_LEN_U128: usize = 19;

/// A 16-bit value encodes in at most three bytes.
pub proof fn lemma_leb128_len_u16(v: nat)
    requires
        v <= u16::MAX,
    ensures
        leb128_len(v) <= MAX_LEB128_LEN_U16,
{
    lemma2_to64();
    lemma_pow2_strictly_increases(16, 21);
    lemma_leb128_len_bound(v, 3);
}

/// A 32-bit value encodes in at most five bytes.
pub proof fn lemma_leb128_len_u32(v: nat)
    requires
        v <= u32::MAX,
    ensures
        leb128_len(v) <= MAX_LEB128_LEN_U32,
{
    lemma2_to64();
    lemma_pow2_strictly_increases(32, 35);
    lemma_leb128_len_bound(v, 5);
}

/// A 64-bit value encodes in at most ten bytes.
pub proof fn lemma_leb128_len_u64(v: nat)
    requires
        v <= u64::MAX,
    ensures
        leb128_len(v) <= MAX_LEB128_LEN_U64,
{
    lemma2_to64();
    vstd::arithmetic::power2::lemma2_to64_rest();
    lemma_pow2_strictly_increases(64, 70);
    lemma_leb128_len_bound(v, 10);
}

/// A 128-bit value encodes in at most nineteen bytes.
pub proof fn lemma_leb128_len_u128(v: nat)
    requires
        v <= u128::MAX,
    ensures
        leb128_len(v) <= MAX_LEB128_LEN_U128,
{
    lemma_leb128_len_max(v);
}

/// A pointer-sized value encodes in at most ten bytes.
pub proof fn lemma_leb128_len_usize(v: nat)
    requires
        v <= usize::MAX,
    ensures
        leb128_len(v) <= MAX_LEB128_LEN_U64,
{
    lemma_leb128_len_u64(v);
}

/// Encodes a 16-bit value with the chosen strategy.
pub fn write_leb128_u16(
    out: &mut Vec<u8>,
    start_position: usize,
    value: u16,
    strategy: EncodeStrategy,
) -> (n: usize)
    requires
        start_position <= old(out).len(),
        start_position + MAX_LEB128_LEN_U16 <= usize::MAX,
    ensures
        final(out)@ == write_seq(old(out)@, start_position as int, leb128(value as nat)),
        n == leb128_len(value as nat),
{
    proof {
        lemma_leb128_len_u16(value as nat);
    }
    write_leb128(out, start_position, value as u128, MAX_LEB128_LEN_U16, strategy)
}

/// Encodes a 32-bit value with the chosen strategy.
pub fn write_leb128_u32(
    out: &mut Vec<u8>,
    start_position: usize,
    value: u32,
    strategy: EncodeStrategy,
) -> (n: usize)
    requires
        start_position <= old(out).len(),
        start_position + MAX_LEB128_LEN_U32 <= usize::MAX,
    ensures
        final(out)@ == write_seq(old(out)@, start_position as int, leb128(value as nat)),
        n == leb128_len(value as nat),
{
    proof {
        lemma_leb128_len_u32(value as nat);
    }
    write_leb128(out, start_position, value as u128, MAX_LEB128_LEN_U32, strategy)
}

/// Encodes a 64-bit value with the chosen strategy.
pub fn write_leb128_u64(
    out: &mut Vec<u8>,
    start_position: usize,
    value: u64,
    strategy: EncodeStrategy,
) -> (n: usize)
    requires
        start_position <= old(out).len(),
        start_position + MAX_LEB128_LEN_U64 <= usize::MAX,
    ensures
        final(out)@ == write_seq(old(out)@, start_position as int, leb128(value as nat)),
        n == leb128_len(value as nat),
{
    proof {
        lemma_leb128_len_u64(value as nat);
    }
    write_leb128(out, start_position, value as u128, MAX_LEB128_LEN_U64, strategy)
}

/// Encodes a 128-bit value with the chosen strategy.
pub fn write_leb128_u128(
    out: &mut Vec<u8>,
    start_position: usize,
    value: u128,
    strategy: EncodeStrategy,
) -> (n: usize)
    requires
        start_position <= old(out).len(),
        start_position + MAX_LEB128_LEN_U128 <= usize::MAX,
    ensures
        final(out)@ == write_seq(old(out)@, start_position as int, leb128(value as nat)),
        n == leb128_len(value as nat),
{
    proof {
        lemma_leb128_len_u128(value as nat);
    }
    write_leb128(out, start_position, value, MAX_LEB128_LEN_U128, strategy)
}

/// Encodes a pointer-sized value with the chosen strategy.
pub fn write_leb128_usize(
    out: &mut Vec<u8>,
    start_position: usize,
    value: usize,
    strategy: EncodeStrategy,
) -> (n: usize)
    requires
        start_position <= old(out).len(),
        start_position + MAX_LEB128_LEN_U64 <= usize::MAX,
    ensures
        final(out)@ == write_seq(old(out)@, start_position as int, leb128(value as nat)),
        n == leb128_len(value as nat),
{
    proof {
        lemma_leb128_len_usize(value as nat);
    }
    write_leb128(out, start_position, value as u128, MAX_LEB128_LEN_U64, strategy)
}

/// One step of a decoder that has consumed the low groups of `big_v` into
/// `result` and faces the encoding of `rem` next: consuming one more
/// continuation byte keeps the accumulator equation.
proof fn lemma_decode_step(big_v: nat, result: u128, rem: nat, shift: nat)
    requires
        rem >= 128,
        shift + 7 < 128,
        big_v == result + rem * pow2(shift),
        result < pow2(shift),
        big_v <= u128::MAX,
    ensures
        result + (rem % 128) * pow2(shift) <= u128::MAX,
        big_v == (result + (rem % 128) * pow2(shift)) + (rem / 128) * pow2(shift + 7),
        result + (rem % 128) * pow2(shift) < pow2(shift + 7),
{
    lemma_pow2_pos(shift);
    lemma_pow2_adds(shift, 7);
    lemma2_to64();
    lemma_fundamental_div_mod(rem as int, 128);
    assert((rem % 128) * pow2(shift) <= rem * pow2(shift)) by {
        lemma_mul_inequality((rem % 128) as int, rem as int, pow2(shift) as int);
    }
    assert(rem * pow2(shift) == (rem % 128) * pow2(shift) + (rem / 128) * (pow2(shift) * 128))
        by (nonlinear_arith)
        requires
            rem == 128 * (rem / 128) + rem % 128,
    ;
    assert(result + (rem % 128) * pow2(shift) < pow2(shift) * 128) by (nonlinear_arith)
        requires
            result < pow2(shift),
            rem % 128 < 128,
            pow2(shift) > 0,
    ;
}

/// Reference-loop decoder: reads bytes forward from `start_position`,
/// accumulating seven-bit groups at increasing shifts, until the first byte
/// whose high bit is clear. The slice must hold a whole encoding there.
pub fn read_unsigned_leb128_ref(data: &[u8], start_position: usize) -> (r: (u128, usize))
    requires
        exists|v: nat| v <= u128::MAX && is_leb128_at(data@, start_position as int, v),
    ensures
        is_leb128_at(data@, start_position as int, r.0 as nat),
        r.1 == leb128_len(r.0 as nat),
        forall|v: nat| is_leb128_at(data@, start_position as int, v) ==> v == r.0 as nat,
{
    let ghost big_v: nat = choose|v: nat|
        v <= u128::MAX && is_leb128_at(data@, start_position as int, v);
    let ghost pos0 = start_position as int;
    let ghost mut rem: nat = big_v;
    let mut result: u128 = 0;
    let mut shift: u32 = 0;
    let mut position = start_position;
    proof {
        lemma2_to64();
        lemma_leb128_len_max(big_v);
        vstd::slice::axiom_spec_len(data);
    }
    let data_len: usize = data.len();
    loop
        invariant
            pos0 == start_position as int,
            big_v <= u128::MAX,
            is_leb128_at(data@, pos0, big_v),
            is_leb128_at(data@, position as int, rem),
            data@.len() <= usize::MAX,
            pos0 <= position,
            leb128_len(big_v) <= 19,
            shift == 7 * (position - pos0),
            leb128_len(big_v) == (position - pos0) + leb128_len(rem),
            big_v == result + rem * pow2(shift as nat),
            result < pow2(shift as nat),
        decreases rem,
    {
        proof {
            lemma_leb128_at_first(data@, position as int, rem);
            lemma_leb128_len(rem);
            lemma_leb128_len(big_v);
        }
        let byte = *vstd::slice::slice_index_get(data, position);
        position = position + 1;
        proof {
            lemma_u8_high_bit(byte);
        }
        let low = (byte & 0x7f) as u128;
        proof {
            if rem >= 128 {
                lemma_decode_step(big_v, result, rem, shift as nat);
            }
            lemma_u128_or_shl_is_add(result, low, shift as u128);
        }
        result = result | (low << shift);
        if byte & 0x80 == 0 {
            proof {
                assert(rem < 128);
                assert(result as nat == big_v);
                assert(position - pos0 == leb128_len(big_v));
                assert forall|v: nat| is_leb128_at(data@, pos0, v) implies v == result as nat by {
                    lemma_leb128_at_unique(data@, pos0, v, big_v);
                }
            }
            return (result, position - start_position);
        }
        shift = shift + 7;
        proof {
            rem = rem / 128;
            lemma_pow2_adds((shift - 7) as nat, 7);
            lemma2_to64();
        }
    }
}


/// Fixed-iteration decoder: a loop bounded by the width's maximum byte
/// count, breaking early on the first byte whose high bit is clear.
pub fn read_leb128_fixed(data: &[u8], start_position: usize, max_bytes: usize) -> (r: (
    u128,
    usize,
))
    requires
        exists|v: nat|
            v <= u128::MAX && leb128_len(v) <= max_bytes && is_leb128_at(
                data@,
                start_position as int,
                v,
            ),
    ensures
        is_leb128_at(data@, start_position as int, r.0 as nat),
        r.1 == leb128_len(r.0 as nat),
        forall|v: nat| is_leb128_at(data@, start_position as int, v) ==> v == r.0 as nat,
{
    let ghost big_v: nat = choose|v: nat|
        v <= u128::MAX && leb128_len(v) <= max_bytes && is_leb128_at(
            data@,
            start_position as int,
            v,
        );
    let ghost pos0 = start_position as int;
    let ghost mut rem: nat = big_v;
    let mut result: u128 = 0;
    let mut shift: u32 = 0;
    let mut position = start_position;
    let mut k: usize = 0;
    proof {
        lemma2_to64();
        lemma_leb128_len_max(big_v);
        vstd::slice::axiom_spec_len(data);
    }
    while k < max_bytes
        invariant_except_break
            pos0 == start_position as int,
            big_v <= u128::MAX,
            is_leb128_at(data@, pos0, big_v),
            is_leb128_at(data@, position as int, rem),
            data@.len() <= usize::MAX,
            pos0 <= position,
            leb128_len(big_v) <= 19,
            leb128_len(big_v) <= max_bytes,
            k == position - pos0,
            shift == 7 * k,
            leb128_len(big_v) == k + leb128_len(rem),
            big_v == result + rem * pow2(shift as nat),
            result < pow2(shift as nat),
        ensures
            result as nat == big_v,
            position == pos0 + leb128_len(big_v),
        decreases max_bytes - k,
    {
        proof {
            lemma_leb128_at_first(data@, position as int, rem);
            lemma_leb128_len(rem);
            lemma_leb128_len(big_v);
        }
        let byte = *vstd::slice::slice_index_get(data, position);
        position = position + 1;
        k = k + 1;
        proof {
            lemma_u8_high_bit(byte);
        }
        let low = (byte & 0x7f) as u128;
        proof {
            if rem >= 128 {
                lemma_decode_step(big_v, result, rem, shift as nat);
            }
            lemma_u128_or_shl_is_add(result, low, shift as u128);
        }
        result = result | (low << shift);
        if byte & 0x80 == 0 {
            proof {
                assert(rem < 128);
                assert(result as nat == big_v);
            }
            break;
        }
        shift = shift + 7;
        proof {
            rem = rem / 128;
            lemma_pow2_adds((shift - 7) as nat, 7);
            lemma2_to64();
        }
    }
    proof {
        assert forall|v: nat| is_leb128_at(data@, pos0, v) implies v == result as nat by {
            lemma_leb128_at_unique(data@, pos0, v, big_v);
        }
    }
    (result, position - start_position)
}


/// Branch-minimized decoder: the per-iteration conditional break is replaced
/// by arithmetic derived from the continuation bit, which advances the
/// position and the shift only while bytes continue; the loop always runs
/// the width's maximum iteration count, re-reading the final byte, and the
/// position advances once more after it. A check that the final position
/// stays inside the slice closes the loop.
pub fn read_leb128_weird(data: &[u8], start_position: usize, max_bytes: usize) -> (r: (
    u128,
    usize,
))
    requires
        exists|v: nat|
            v <= u128::MAX && leb128_len(v) <= max_bytes && is_leb128_at(
                data@,
                start_position as int,
                v,
            ),
    ensures
        is_leb128_at(data@, start_position as int, r.0 as nat),
        r.1 == leb128_len(r.0 as nat),
        forall|v: nat| is_leb128_at(data@, start_position as int, v) ==> v == r.0 as nat,
{
    let ghost big_v: nat = choose|v: nat|
        v <= u128::MAX && leb128_len(v) <= max_bytes && is_leb128_at(
            data@,
            start_position as int,
            v,
        );
    let ghost pos0 = start_position as int;
    let ghost mut rem: nat = big_v;
    let ghost mut done: bool = false;
    let mut result: u128 = 0;
    let mut shift: u32 = 0;
    let mut position = start_position;
    let mut k: usize = 0;
    proof {
        lemma2_to64();
        lemma_leb128_len_max(big_v);
        vstd::slice::axiom_spec_len(data);
    }
    while k < max_bytes
        invariant
            pos0 == start_position as int,
            big_v <= u128::MAX,
            is_leb128_at(data@, pos0, big_v),
            data@.len() <= usize::MAX,
            leb128_len(big_v) <= 19,
            leb128_len(big_v) <= max_bytes,
            k <= max_bytes,
            !done ==> {
                &&& is_leb128_at(data@, position as int, rem)
                &&& k == position - pos0
                &&& shift == 7 * k
                &&& leb128_len(big_v) == k + leb128_len(rem)
                &&& big_v == result + rem * pow2(shift as nat)
                &&& result < pow2(shift as nat)
            },
            done ==> {
                &&& position == pos0 + leb128_len(big_v) - 1
                &&& shift == 7 * (leb128_len(big_v) - 1)
                &&& result as nat == big_v
                &&& 0 <= position < data@.len()
                &&& data@[position as int] < 128
                &&& result | (((data@[position as int] & 0x7f) as u128) << shift) == result
            },
        ensures
            done,
        decreases max_bytes - k,
    {
        proof {
            if !done {
                lemma_leb128_at_first(data@, position as int, rem);
                lemma_leb128_len(rem);
                lemma_leb128_len(big_v);
            }
        }
        let byte = *vstd::slice::slice_index_get(data, position);
        proof {
            lemma_u8_high_bit(byte);
        }
        let mult = (byte >> 7) as usize;
        position = position + mult;
        let low = (byte & 0x7f) as u128;
        let ghost result_pre = result;
        proof {
            if !done {
                if rem >= 128 {
                    lemma_decode_step(big_v, result, rem, shift as nat);
                }
                lemma_u128_or_shl_is_add(result, low, shift as u128);
            } else {
                crate::bitops::lemma_u128_or_idempotent(result_pre, low << shift);
            }
        }
        result = result | (low << shift);
        proof {
            if done {
                assert(result == result_pre);
            } else if byte < 128 {
                assert(rem < 128);
                assert(result as nat == big_v);
                crate::bitops::lemma_u128_or_idempotent(result_pre, low << shift);
                done = true;
            }
        }
        shift = shift + 7 * (mult as u32);
        proof {
            if !done {
                rem = rem / 128;
                lemma_pow2_adds((shift - 7) as nat, 7);
                lemma2_to64();
            }
        }
        k = k + 1;
    }
    position = position + 1;
    proof {
        lemma_leb128_len(big_v);
        assert forall|v: nat| is_leb128_at(data@, pos0, v) implies v == result as nat by {
            lemma_leb128_at_unique(data@, pos0, v, big_v);
        }
        assert(position <= data@.len());
    }
    (result, position - start_position)
}


/// Selects one of the LEB128 decoder code paths; all return the same value
/// and byte count on every valid encoding.
#[derive(Clone, Copy, PartialEq, Eq, Debug)]
pub enum DecodeStrategy {
    /// Unbounded loop, reading until the continuation bit is clear.
    Reference,
    /// Loop bounded by the width's maximum byte count, breaking early.
    Fixed,
    /// Fixed iteration count with the break replaced by continuation-bit
    /// arithmetic.
    BranchFree,
}

/// Decodes the value whose encoding starts at `start_position` using the
/// chosen strategy. `max_bytes` bounds the encoded length; the statically
/// known maximum for the target width satisfies it.
pub fn read_leb128(
    data: &[u8],
    start_position: usize,
    max_bytes: usize,
    strategy: DecodeStrategy,
) -> (r: (u128, usize))
    requires
        exists|v: nat|
            v <= u128::MAX && leb128_len(v) <= max_bytes && is_leb128_at(
                data@,
                start_position as int,
                v,
            ),
    ensures
        is_leb128_at(data@, start_position as int, r.0 as nat),
        r.1 == leb128_len(r.0 as nat),
        forall|v: nat| is_leb128_at(data@, start_position as int, v) ==> v == r.0 as nat,
{
    match strategy {
        DecodeStrategy::Reference => read_unsigned_leb128_ref(data, start_position),
        DecodeStrategy::Fixed => read_leb128_fixed(data, start_position, max_bytes),
        DecodeStrategy::BranchFree => read_leb128_weird(data, start_position, max_bytes),
    }
}

/// Decodes a 16-bit value with the chosen strategy.
pub fn read_leb128_u16(data: &[u8], start_position: usize, strategy: DecodeStrategy) -> (r: (
    u16,
    usize,
))
    requires
        exists|v: nat| v <= u16::MAX && is_leb128_at(data@, start_position as int, v),
    ensures
        is_leb128_at(data@, start_position as int, r.0 as nat),
        r.1 == leb128_len(r.0 as nat),
        forall|v: nat| is_leb128_at(data@, start_position as int, v) ==> v == r.0 as nat,
{
    let ghost w: nat = choose|v: nat|
        v <= u16::MAX && is_leb128_at(data@, start_position as int, v);
    proof {
        lemma_leb128_len_u16(w);
    }
    let (value, n) = read_leb128(data, start_position, MAX_LEB128_LEN_U16, strategy);
    proof {
        assert(value as nat == w);
    }
    (value as u16, n)
}

/// Decodes a 32-bit value with the chosen strategy.
pub fn read_leb128_u32(data: &[u8], start_position: usize, strategy: DecodeStrategy) -> (r: (
    u32,
    usize,
))
    requires
        exists|v: nat| v <= u32::MAX && is_leb128_at(data@, start_position as int, v),
    ensures
        is_leb128_at(data@, start_position as int, r.0 as nat),
        r.1 == leb128_len(r.0 as nat),
        forall|v: nat| is_leb128_at(data@, start_position as int, v) ==> v == r.0 as nat,
{
    let ghost w: nat = choose|v: nat|
        v <= u32::MAX && is_leb128_at(data@, start_position as int, v);
    proof {
        lemma_leb128_len_u32(w);
    }
    let (value, n) = read_leb128(data, start_position, MAX_LEB128_LEN_U32, strategy);
    proof {
        assert(value as nat == w);
    }
    (value as u32, n)
}

/// Decodes a 64-bit value with the chosen strategy.
pub fn read_leb128_u64(data: &[u8], start_position: usize, strategy: DecodeStrategy) -> (r: (
    u64,
    usize,
))
    requires
        exists|v: nat| v <= u64::MAX && is_leb128_at(data@, start_position as int, v),
    ensures
        is_leb128_at(data@, start_position as int, r.0 as nat),
        r.1 == leb128_len(r.0 as nat),
        forall|v: nat| is_leb128_at(data@, start_position as int, v) ==> v == r.0 as nat,
{
    let ghost w: nat = choose|v: nat|
        v <= u64::MAX && is_leb128_at(data@, start_position as int, v);
    proof {
        lemma_leb128_len_u64(w);
    }
    let (value, n) = read_leb128(data, start_position, MAX_LEB128_LEN_U64, strategy);
    proof {
        assert(value as nat == w);
    }
    (value as u64, n)
}

/// Decodes a 128-bit value with the chosen strategy.
pub fn read_leb128_u128(data: &[u8], start_position: usize, strategy: DecodeStrategy) -> (r: (
    u128,
    usize,
))
    requires
        exists|v: nat| v <= u128::MAX && is_leb128_at(data@, start_position as int, v),
    ensures
        is_leb128_at(data@, start_position as int, r.0 as nat),
        r.1 == leb128_len(r.0 as nat),
        forall|v: nat| is_leb128_at(data@, start_position as int, v) ==> v == r.0 as nat,
{
    let ghost w: nat = choose|v: nat|
        v <= u128::MAX && is_leb128_at(data@, start_position as int, v);
    proof {
        lemma_leb128_len_u128(w);
    }
    read_leb128(data, start_position, MAX_LEB128_LEN_U128, strategy)
}

/// Decodes a pointer-sized value with the chosen strategy.
pub fn read_leb128_usize(data: &[u8], start_position: usize, strategy: DecodeStrategy) -> (r: (
    usize,
    usize,
))
    requires
        exists|v: nat| v <= usize::MAX && is_leb128_at(data@, start_position as int, v),
    ensures
        is_leb128_at(data@, start_position as int, r.0 as nat),
        r.1 == leb128_len(r.0 as nat),
        forall|v: nat| is_leb128_at(data@, start_position as int, v) ==> v == r.0 as nat,
{
    let ghost w: nat = choose|v: nat|
        v <= usize::MAX && is_leb128_at(data@, start_position as int, v);
    proof {
        lemma_leb128_len_usize(w);
    }
    let (value, n) = read_leb128(data, start_position, MAX_LEB128_LEN_U64, strategy);
    proof {
        assert(value as nat == w);
    }
    (value as usize, n)
}

} // verus!
