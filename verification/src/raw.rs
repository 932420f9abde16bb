//! Raw fixed-width integer writer: writes an integer's bytes in little-endian
//! order through the positioned buffer writer, either as one bulk slice or
//! byte by byte from repeated shifts. Signed values are written as their
//! two's-complement bit patterns.

use vstd::prelude::*;
use vstd::arithmetic::power2::{pow2, lemma_pow2_adds, lemma2_to64};
use vstd::arithmetic::div_mod::lemma_div_denominator;
use vstd::bits::lemma_u128_shr_is_div;
use crate::writer::{
    write_seq, write_to_vec, write_slice_with, WriteStrategy, lemma_write_seq_empty,
    lemma_write_seq_singleton, lemma_write_seq_concat, lemma_write_seq_len,
};
use crate::bitops::lemma_u128_low8;

verus! {

/// The low `n` bytes of `v` in little-endian order.
pub open spec fn le_bytes(v: nat, n: nat) -> Seq<u8>
    decreases n,
{
    if n == 0 {
        Seq::empty()
    } else {
        seq![(v % 256) as u8].add(le_bytes(v / 256, (n - 1) as nat))
    }
}

/// `le_bytes` yields exactly `n` bytes.
pub proof fn lemma_le_bytes_len(v: nat, n: nat)
    ensures
        le_bytes(v, n).len() == n,
    decreases n,
{
    if n > 0 {
        lemma_le_bytes_len(v / 256, (n - 1) as nat);
    }
}

/// The byte at index `i` of a little-endian encoding holds bits `8 * i` and
/// up.
pub proof fn lemma_le_bytes_index(v: nat, n: nat, i: int)
    requires
        0 <= i < n,
    ensures
        le_bytes(v, n)[i] == ((v / pow2((8 * i) as nat)) % 256) as u8,
    decreases i,
{
    lemma_le_bytes_len(v, n);
    lemma2_to64();
    if i == 0 {
        assert(pow2((8 * i) as nat) == 1);
        assert(le_bytes(v, n)[0] == (v % 256) as u8);
        assert(v / 1 == v);
    } else {
        let p1 = pow2((8 * (i - 1)) as nat);
        lemma_le_bytes_index(v / 256, (n - 1) as nat, i - 1);
        lemma_pow2_adds(8, (8 * (i - 1)) as nat);
        vstd::arithmetic::power2::lemma_pow2_pos((8 * (i - 1)) as nat);
        assert(pow2((8 * i) as nat) == 256 * p1);
        lemma_div_denominator(v as int, 256, p1 as int);
        assert(v / 256 / p1 == v / (256 * p1));
        assert(le_bytes(v, n)[i] == le_bytes(v / 256, (n - 1) as nat)[i - 1]);
        assert(le_bytes(v / 256, (n - 1) as nat)[i - 1] == (((v / 256) / p1) % 256) as u8);
    }
}

/// The value a little-endian byte sequence denotes.
pub open spec fn le_value(s: Seq<u8>) -> nat
    decreases s.len(),
{
    if s.len() == 0 {
        0
    } else {
        (s[0] + 256 * le_value(s.skip(1))) as nat
    }
}

/// Reading back the little-endian bytes of a value that fits in them
/// recovers the value.
pub proof fn lemma_le_value_of_le_bytes(v: nat, n: nat)
    requires
        v < pow2(8 * n),
    ensures
        le_value(le_bytes(v, n)) == v,
    decreases n,
{
    lemma2_to64();
    if n == 0 {
    } else {
        lemma_pow2_adds(8, (8 * (n - 1)) as nat);
        assert(v / 256 < pow2((8 * (n - 1)) as nat)) by (nonlinear_arith)
            requires
                v < 256 * pow2((8 * (n - 1)) as nat),
        ;
        lemma_le_value_of_le_bytes(v / 256, (n - 1) as nat);
        assert(le_bytes(v, n).skip(1) =~= le_bytes(v / 256, (n - 1) as nat));
    }
}

/// A little-endian byte sequence denotes a value below `pow2` of eight times
/// its length.
pub proof fn lemma_le_value_bound(s: Seq<u8>)
    ensures
        le_value(s) < pow2(8 * s.len()),
    decreases s.len(),
{
    lemma2_to64();
    if s.len() > 0 {
        lemma_le_value_bound(s.skip(1));
        lemma_pow2_adds(8, (8 * (s.len() - 1)) as nat);
        assert(s[0] + 256 * le_value(s.skip(1)) < 256 * pow2((8 * (s.len() - 1)) as nat))
            by (nonlinear_arith)
            requires
                s[0] < 256,
                le_value(s.skip(1)) < pow2((8 * (s.len() - 1)) as nat),
        ;
    }
}

/// Writes the low `size` bytes of `value` in little-endian order at
/// `start_position`, assembling them in a scratch buffer and flushing it with
/// the chosen positioned-write code path. Returns the byte count written.
pub fn write_raw_le(
    out: &mut Vec<u8>,
    start_position: usize,
    value: u128,
    size: usize,
    strategy: WriteStrategy,
) -> (n: usize)
    requires
        start_position <= old(out).len(),
        start_position + size <= usize::MAX,
    ensures
        final(out)@ == write_seq(old(out)@, start_position as int, le_bytes(value as nat, size as nat)),
        n == size,
{
    let mut scratch: Vec<u8> = Vec::new();
    let mut v = value;
    let mut i: usize = 0;
    while i < size
        invariant
            i <= size,
            scratch@.len() == i,
            le_bytes(value as nat, size as nat) == scratch@.add(
                le_bytes(v as nat, (size - i) as nat),
            ),
        decreases size - i,
    {
        let ghost scratch_pre = scratch@;
        let ghost v_pre = v as nat;
        let byte = (v % 256) as u8;
        v = v / 256;
        scratch.push(byte);
        i = i + 1;
        proof {
            assert(le_bytes(v_pre, (size - i + 1) as nat) == seq![byte].add(
                le_bytes(v as nat, (size - i) as nat),
            ));
            assert(scratch@ =~= scratch_pre.add(seq![byte]));
            assert(scratch_pre.add(seq![byte]).add(le_bytes(v as nat, (size - i) as nat))
                =~= scratch_pre.add(seq![byte].add(le_bytes(v as nat, (size - i) as nat))));
        }
    }
    proof {
        assert(le_bytes(v as nat, 0) =~= Seq::<u8>::empty());
        assert(scratch@ =~= le_bytes(value as nat, size as nat));
        lemma_le_bytes_len(value as nat, size as nat);
    }
    write_slice_with(out, start_position, scratch.as_slice(), strategy);
    size
}

/// Byte-shift variant: writes each byte individually through the
/// overwrite-or-push writer, taking byte `i` as `(value >> (8 * i)) & 0xff`.
pub fn write_raw_le_shift(
    out: &mut Vec<u8>,
    start_position: usize,
    value: u128,
    size: usize,
) -> (n: usize)
    requires
        start_position <= old(out).len(),
        start_position + size <= usize::MAX,
        size <= 16,
    ensures
        final(out)@ == write_seq(old(out)@, start_position as int, le_bytes(value as nat, size as nat)),
        n == size,
{
    let ghost buf0 = out@;
    let ghost pos0 = start_position as int;
    let ghost bytes = le_bytes(value as nat, size as nat);
    proof {
        lemma_write_seq_empty(buf0, pos0);
        lemma_le_bytes_len(value as nat, size as nat);
        assert(bytes.take(0) =~= Seq::<u8>::empty());
    }
    let mut i: usize = 0;
    while i < size
        invariant
            buf0 == old(out)@,
            pos0 == start_position as int,
            bytes == le_bytes(value as nat, size as nat),
            bytes.len() == size,
            size <= 16,
            0 <= pos0 <= buf0.len(),
            pos0 + size <= usize::MAX,
            i <= size,
            out@ == write_seq(buf0, pos0, bytes.take(i as int)),
        decreases size - i,
    {
        proof {
            lemma_write_seq_len(buf0, pos0, bytes.take(i as int));
        }
        let shift = (8 * i) as u32;
        let byte = ((value >> shift) & 0xff) as u8;
        let ghost buf_pre = out@;
        write_to_vec(out, start_position + i, byte);
        proof {
            lemma_u128_shr_is_div(value, shift as u128);
            lemma_u128_low8(value >> shift);
            lemma_le_bytes_index(value as nat, size as nat, i as int);
            assert(byte == bytes[i as int]);
            lemma_write_seq_singleton(buf_pre, pos0 + i, byte);
            lemma_write_seq_concat(buf0, pos0, bytes.take(i as int), seq![byte]);
            assert(bytes.take(i as int).add(seq![byte]) =~= bytes.take(i + 1));
        }
        i = i + 1;
    }
    proof {
        assert(bytes.take(size as int) =~= bytes);
    }
    size
}

/// Signed counterpart of `write_raw_le`: writes the low `size` bytes of the
/// value's two's-complement bit pattern in little-endian order.
pub fn write_raw_le_signed(
    out: &mut Vec<u8>,
    start_position: usize,
    value: i128,
    size: usize,
    strategy: WriteStrategy,
) -> (n: usize)
    requires
        start_position <= old(out).len(),
        start_position + size <= usize::MAX,
    ensures
        final(out)@ == write_seq(
            old(out)@,
            start_position as int,
            le_bytes((value as u128) as nat, size as nat),
        ),
        n == size,
{
    let bits = #[verifier::truncate] (value as u128);
    write_raw_le(out, start_position, bits, size, strategy)
}

} // verus!
