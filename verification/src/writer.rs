//! Positioned buffer writer: write a byte or a byte slice starting at an
//! arbitrary offset into a growable byte buffer, overwriting the bytes that
//! already exist there and appending the remainder, never leaving a gap.
//!
//! Three variants with identical observable results are provided, embodying
//! different branching and copying tradeoffs; `write_slice_with` selects one
//! by a strategy value.

use vstd::prelude::*;

verus! {

/// The buffer after one byte is written at `pos`: an overwrite when `pos`
/// lies inside the buffer, an append when `pos` equals its length.
pub open spec fn write_byte_seq(buf: Seq<u8>, pos: int, byte: u8) -> Seq<u8>
    recommends
        0 <= pos <= buf.len(),
{
    if pos < buf.len() {
        buf.update(pos, byte)
    } else {
        buf.push(byte)
    }
}

/// The buffer after `bytes` is written starting at `pos`: bytes up to the
/// buffer's end are overwritten in place, the rest is appended.
pub open spec fn write_seq(buf: Seq<u8>, pos: int, bytes: Seq<u8>) -> Seq<u8>
    recommends
        0 <= pos <= buf.len(),
{
    if pos + bytes.len() <= buf.len() {
        buf.take(pos).add(bytes).add(buf.skip(pos + bytes.len()))
    } else {
        buf.take(pos).add(bytes)
    }
}

/// Writing no bytes leaves the buffer unchanged.
pub proof fn lemma_write_seq_empty(buf: Seq<u8>, pos: int)
    requires
        0 <= pos <= buf.len(),
    ensures
        write_seq(buf, pos, Seq::<u8>::empty()) == buf,
{
    assert(write_seq(buf, pos, Seq::<u8>::empty()) =~= buf);
}

/// Writing one byte and writing a one-byte slice agree.
pub proof fn lemma_write_seq_singleton(buf: Seq<u8>, pos: int, byte: u8)
    requires
        0 <= pos <= buf.len(),
    ensures
        write_seq(buf, pos, seq![byte]) == write_byte_seq(buf, pos, byte),
{
    assert(write_seq(buf, pos, seq![byte]) =~= write_byte_seq(buf, pos, byte));
}

/// A bulk write is one byte written at `pos` followed by the remaining bytes
/// written at `pos + 1`: the step that justifies byte-at-a-time loops.
pub proof fn lemma_write_seq_step(buf: Seq<u8>, pos: int, byte: u8, rest: Seq<u8>)
    requires
        0 <= pos <= buf.len(),
    ensures
        write_seq(buf, pos, seq![byte].add(rest)) == write_seq(
            write_byte_seq(buf, pos, byte),
            pos + 1,
            rest,
        ),
{
    let buf1 = write_byte_seq(buf, pos, byte);
    assert(write_seq(buf, pos, seq![byte].add(rest)) =~= write_seq(buf1, pos + 1, rest));
}

/// Writing `xs` then `ys` right after it equals writing `xs + ys` at once.
pub proof fn lemma_write_seq_concat(buf: Seq<u8>, pos: int, xs: Seq<u8>, ys: Seq<u8>)
    requires
        0 <= pos <= buf.len(),
    ensures
        write_seq(write_seq(buf, pos, xs), pos + xs.len(), ys) == write_seq(
            buf,
            pos,
            xs.add(ys),
        ),
    decreases xs.len(),
{
    if xs.len() == 0 {
        lemma_write_seq_empty(buf, pos);
        assert(xs.add(ys) =~= ys);
    } else {
        let byte = xs[0];
        let rest = xs.skip(1);
        let buf1 = write_byte_seq(buf, pos, byte);
        assert(xs =~= seq![byte].add(rest));
        lemma_write_seq_step(buf, pos, byte, rest);
        lemma_write_seq_concat(buf1, pos + 1, rest, ys);
        assert(rest.add(ys) =~= seq![byte].add(rest.add(ys)).skip(1));
        lemma_write_seq_step(buf, pos, byte, rest.add(ys));
        assert(seq![byte].add(rest.add(ys)) =~= xs.add(ys));
    }
}

/// The length of the buffer after a positioned write.
pub proof fn lemma_write_seq_len(buf: Seq<u8>, pos: int, bytes: Seq<u8>)
    requires
        0 <= pos <= buf.len(),
    ensures
        write_seq(buf, pos, bytes).len() == if pos + bytes.len() <= buf.len() {
            buf.len() as int
        } else {
            pos + bytes.len()
        },
{
}

/// Appending to a buffer and overwriting a pre-extended buffer of the same
/// shape yield the same final contents: writing `bytes` at the end of `buf`
/// equals writing `bytes` over any extension of `buf` of matching length.
pub proof fn lemma_append_overwrite_equiv(buf: Seq<u8>, ext: Seq<u8>, bytes: Seq<u8>)
    requires
        ext.len() == bytes.len(),
    ensures
        write_seq(buf.add(ext), buf.len() as int, bytes) == write_seq(
            buf,
            buf.len() as int,
            bytes,
        ),
{
    assert(write_seq(buf.add(ext), buf.len() as int, bytes) =~= write_seq(
        buf,
        buf.len() as int,
        bytes,
    ));
}

/// Writes one byte at `position`, overwriting in place when the position lies
/// inside the buffer and pushing when it equals the buffer's length.
pub fn write_to_vec(vec: &mut Vec<u8>, position: usize, byte: u8)
    requires
        position <= old(vec).len(),
    ensures
        final(vec)@ == write_byte_seq(old(vec)@, position as int, byte),
{
    if position == vec.len() {
        vec.push(byte);
    } else {
        vec.set(position, byte);
    }
}

/// Byte-at-a-time variant: one overwrite-or-push branch per input byte.
pub fn write_to_vec_solo(vec: &mut Vec<u8>, position: usize, bytes: &[u8])
    requires
        position <= old(vec).len(),
        position + bytes@.len() <= usize::MAX,
    ensures
        final(vec)@ == write_seq(old(vec)@, position as int, bytes@),
{
    let ghost buf0 = vec@;
    let ghost pos0 = position as int;
    let mut i: usize = 0;
    let mut position = position;
    proof {
        lemma_write_seq_empty(buf0, pos0);
        assert(bytes@.take(0) =~= Seq::<u8>::empty());
    }
    while i < bytes.len()
        invariant
            i <= bytes@.len(),
            position == pos0 + i,
            pos0 + bytes@.len() <= usize::MAX,
            position <= vec@.len(),
            vec@ == write_seq(buf0, pos0, bytes@.take(i as int)),
            0 <= pos0 <= buf0.len(),
        decreases bytes@.len() - i,
    {
        let byte = *vstd::slice::slice_index_get(bytes, i);
        write_to_vec(vec, position, byte);
        proof {
            lemma_write_seq_singleton(write_seq(buf0, pos0, bytes@.take(i as int)), position as int, byte);
            lemma_write_seq_concat(buf0, pos0, bytes@.take(i as int), seq![byte]);
            assert(bytes@.take(i as int).add(seq![byte]) =~= bytes@.take(i + 1));
        }
        position = position + 1;
        i = i + 1;
    }
    proof {
        assert(bytes@.take(bytes@.len() as int) =~= bytes@);
    }
}

/// Split-copy variant: overwrites the prefix that fits in the existing buffer
/// without an overwrite-or-push branch per byte, then appends the remainder
/// in one bulk extension.
pub fn write_slice_to_vec(output: &mut Vec<u8>, start_position: usize, input: &[u8])
    requires
        start_position <= old(output).len(),
        start_position + input@.len() <= usize::MAX,
    ensures
        final(output)@ == write_seq(old(output)@, start_position as int, input@),
{
    let ghost buf0 = output@;
    let ghost pos0 = start_position as int;
    let input_len = input.len();
    let capacity = output.len() - start_position;
    let first_half = if capacity < input_len {
        capacity
    } else {
        input_len
    };

    let mut j: usize = 0;
    while j < first_half
        invariant
            j <= first_half,
            first_half <= input@.len(),
            pos0 + first_half <= buf0.len(),
            pos0 + first_half <= usize::MAX,
            pos0 == start_position as int,
            0 <= pos0,
            output@.len() == buf0.len(),
            forall|k: int| 0 <= k < buf0.len() && !(pos0 <= k < pos0 + j) ==> output@[k] == buf0[k],
            forall|k: int| 0 <= k < j ==> output@[pos0 + k] == input@[k],
        decreases first_half - j,
    {
        let byte = *vstd::slice::slice_index_get(input, j);
        output.set(start_position + j, byte);
        j = j + 1;
    }

    if first_half < input_len {
        let tail = vstd::slice::slice_subrange(input, first_half, input_len);
        let ghost mid = output@;
        output.extend_from_slice(tail);
        proof {
            assert forall|k: int| 0 <= k < tail@.len() implies output@[mid.len() + k]
                == tail@[k] by {
                assert(vstd::pervasive::cloned::<u8>(tail@[k], output@[mid.len() + k]));
            }
            assert(output@ =~= write_seq(buf0, pos0, input@));
        }
    } else {
        proof {
            assert(output@ =~= write_seq(buf0, pos0, input@));
        }
    }
}

/// The split-copy path kept out of line for the skewed variant's cold branch;
/// its observable behaviour is identical to `write_slice_to_vec`.
#[inline(never)]
pub fn write_slice_to_vec_cold(output: &mut Vec<u8>, start_position: usize, input: &[u8])
    requires
        start_position <= old(output).len(),
        start_position + input@.len() <= usize::MAX,
    ensures
        final(output)@ == write_seq(old(output)@, start_position as int, input@),
{
    write_slice_to_vec(output, start_position, input);
}

/// Skewed variant: the pure append (the dominant case when encoding
/// sequentially into a fresh buffer) extends the buffer in one step; any
/// other position falls back to the out-of-line split-copy path.
pub fn write_slice_to_vec_skewed(output: &mut Vec<u8>, start_position: usize, input: &[u8])
    requires
        start_position <= old(output).len(),
        start_position + input@.len() <= usize::MAX,
    ensures
        final(output)@ == write_seq(old(output)@, start_position as int, input@),
{
    if start_position == output.len() {
        let ghost buf0 = output@;
        output.extend_from_slice(input);
        proof {
            assert forall|k: int| 0 <= k < input@.len() implies output@[buf0.len() + k]
                == input@[k] by {
                assert(vstd::pervasive::cloned::<u8>(input@[k], output@[buf0.len() + k]));
            }
            assert(output@ =~= write_seq(buf0, start_position as int, input@));
        }
    } else {
        write_slice_to_vec_cold(output, start_position, input);
    }
}

/// Selects one of the three positioned-write code paths; all produce the same
/// final buffer.
#[derive(Clone, Copy, PartialEq, Eq, Debug)]
pub enum WriteStrategy {
    /// One overwrite-or-push branch per byte.
    Solo,
    /// Bulk overwrite of the prefix that fits, bulk append of the rest.
    Split,
    /// Fast path for pure appends, split-copy otherwise.
    Skewed,
}

/// Writes `input` at `start_position` using the chosen code path.
pub fn write_slice_with(
    output: &mut Vec<u8>,
    start_position: usize,
    input: &[u8],
    strategy: WriteStrategy,
)
    requires
        start_position <= old(output).len(),
        start_position + input@.len() <= usize::MAX,
    ensures
        final(output)@ == write_seq(old(output)@, start_position as int, input@),
{
    match strategy {
        WriteStrategy::Solo => write_to_vec_solo(output, start_position, input),
        WriteStrategy::Split => write_slice_to_vec(output, start_position, input),
        WriteStrategy::Skewed => write_slice_to_vec_skewed(output, start_position, input),
    }
}

} // verus!
