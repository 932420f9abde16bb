//! An alternate variable-length codec that replaces LEB128's continuation
//! bits with length cut-points: small values are one literal byte, a middle
//! range is a biased big-endian pair, and larger values get a tag byte
//! carrying the count of raw little-endian bytes that follow. Values up to
//! 64 bits wide are supported; it does not share LEB128's wire format and is
//! paired with its own decoder.

use vstd::prelude::*;
use vstd::arithmetic::power2::{pow2, lemma_pow2_adds, lemma_pow2_strictly_increases, lemma2_to64};
use vstd::arithmetic::div_mod::lemma_fundamental_div_mod;
use crate::writer::{
    write_seq, write_to_vec, WriteStrategy, lemma_write_seq_singleton, lemma_write_seq_concat,
};
use crate::raw::{le_bytes, le_value, write_raw_le, lemma_le_bytes_len, lemma_le_value_of_le_bytes};

verus! {

/// Values below this cut encode as one byte equal to the value.
pub const LESQLITE_CUT1: u64 = 185;

/// First byte values from this cut up are tags announcing raw byte counts.
pub const LESQLITE_CUT2: u64 = 249;

/// The largest value the biased two-byte form can hold:
/// `CUT1 + 255 + 256 * (CUT2 - 1 - CUT1)`.
pub const LESQLITE_TWO_BYTE_MAX: u64 = 16568;

/// The minimal number of bytes holding the value's significant bits.
pub open spec fn byte_len(v: nat) -> nat
    decreases v,
{
    if v < 256 {
        1
    } else {
        (1 + byte_len(v / 256)) as nat
    }
}

/// The lesqlite encoding of `v`: a literal byte, a biased big-endian pair,
/// or a tag byte followed by the value's raw little-endian bytes.
pub open spec fn lesqlite(v: nat) -> Seq<u8> {
    if v < 185 {
        seq![v as u8]
    } else if v <= 16568 {
        seq![(185 + (v - 185) / 256) as u8, ((v - 185) % 256) as u8]
    } else {
        seq![(249 + (byte_len(v) - 2)) as u8].add(le_bytes(v, byte_len(v)))
    }
}

/// The encoding of `v` starts at `pos` in `s`.
pub open spec fn is_lesqlite_at(s: Seq<u8>, pos: int, v: nat) -> bool {
    &&& 0 <= pos
    &&& pos + lesqlite(v).len() <= s.len()
    &&& s.subrange(pos, pos + lesqlite(v).len() as int) == lesqlite(v)
}

/// Every value is below `pow2` of eight times its minimal byte count.
pub proof fn lemma_byte_len_pow(v: nat)
    ensures
        v < pow2(8 * byte_len(v)),
        byte_len(v) >= 1,
        v >= 256 ==> byte_len(v) >= 2,
    decreases v,
{
    lemma2_to64();
    if v < 256 {
    } else {
        lemma_byte_len_pow(v / 256);
        lemma_pow2_adds(8, 8 * byte_len(v / 256));
        lemma_fundamental_div_mod(v as int, 256);
        assert(v < 256 * pow2(8 * byte_len(v / 256))) by (nonlinear_arith)
            requires
                v / 256 < pow2(8 * byte_len(v / 256)),
                v == 256 * (v / 256) + v % 256,
                v % 256 < 256,
        ;
    }
}

/// Values below `pow2(8 * n)` need at most `n` bytes.
pub proof fn lemma_byte_len_bound(v: nat, n: nat)
    requires
        1 <= n,
        v < pow2(8 * n),
    ensures
        byte_len(v) <= n,
    decreases n,
{
    lemma2_to64();
    if v < 256 {
    } else {
        lemma_pow2_adds(8, (8 * (n - 1)) as nat);
        assert(v / 256 < pow2((8 * (n - 1)) as nat)) by (nonlinear_arith)
            requires
                v < 256 * pow2((8 * (n - 1)) as nat),
        ;
        assert(n >= 2) by {
            vstd::arithmetic::power2::lemma_pow2_pos((8 * (n - 1)) as nat);
            if n == 1 {
            }
        }
        lemma_byte_len_bound(v / 256, (n - 1) as nat);
    }
}

/// A value a `u64` can hold needs at most eight bytes.
pub proof fn lemma_byte_len_u64(v: nat)
    requires
        v <= u64::MAX,
    ensures
        byte_len(v) <= 8,
{
    vstd::arithmetic::power2::lemma2_to64_rest();
    lemma_byte_len_bound(v, 8);
}

/// The encoded length of each lesqlite form.
pub proof fn lemma_lesqlite_len(v: nat)
    requires
        v <= u64::MAX,
    ensures
        v < 185 ==> lesqlite(v).len() == 1,
        185 <= v <= 16568 ==> lesqlite(v).len() == 2,
        v > 16568 ==> lesqlite(v).len() == 1 + byte_len(v),
        1 <= lesqlite(v).len() <= 9,
{
    lemma_byte_len_u64(v);
    lemma_byte_len_pow(v);
    if v > 16568 {
        lemma_le_bytes_len(v, byte_len(v));
    }
}

/// At most one value's lesqlite encoding starts at a given position, so any
/// decoder reading an encoder's output returns exactly the encoded value.
pub proof fn lemma_lesqlite_at_unique(s: Seq<u8>, pos: int, v1: nat, v2: nat)
    requires
        v1 <= u64::MAX,
        v2 <= u64::MAX,
        is_lesqlite_at(s, pos, v1),
        is_lesqlite_at(s, pos, v2),
    ensures
        v1 == v2,
{
    lemma_lesqlite_len(v1);
    lemma_lesqlite_len(v2);
    lemma_byte_len_pow(v1);
    lemma_byte_len_pow(v2);
    lemma_byte_len_u64(v1);
    lemma_byte_len_u64(v2);
    assert(s.subrange(pos, pos + lesqlite(v1).len() as int)[0] == s[pos]);
    assert(s.subrange(pos, pos + lesqlite(v2).len() as int)[0] == s[pos]);
    let b0 = s[pos];
    if v1 > 16568 && v2 > 16568 {
        let n1 = byte_len(v1);
        let n2 = byte_len(v2);
        assert(n1 == n2);
        let n = n1;
        lemma_le_bytes_len(v1, n);
        lemma_le_bytes_len(v2, n);
        assert(le_bytes(v1, n) =~= le_bytes(v2, n)) by {
            assert forall|i: int| 0 <= i < n implies le_bytes(v1, n)[i] == le_bytes(v2, n)[i] by {
                assert(s.subrange(pos, pos + lesqlite(v1).len() as int)[i + 1] == s[pos + 1 + i]);
                assert(s.subrange(pos, pos + lesqlite(v2).len() as int)[i + 1] == s[pos + 1 + i]);
            }
        }
        lemma_le_value_of_le_bytes(v1, n);
        lemma_le_value_of_le_bytes(v2, n);
    } else if (185 <= v1 <= 16568) && (185 <= v2 <= 16568) {
        assert(s.subrange(pos, pos + lesqlite(v1).len() as int)[1] == s[pos + 1]);
        assert(s.subrange(pos, pos + lesqlite(v2).len() as int)[1] == s[pos + 1]);
        lemma_fundamental_div_mod((v1 - 185) as int, 256);
        lemma_fundamental_div_mod((v2 - 185) as int, 256);
    }
}

/// Round-trip: after an encoder writes `lesqlite(v)` at `pos`, the encoding
/// of `v` — and, by `lemma_lesqlite_at_unique`, only of `v` — stands there.
pub proof fn lemma_lesqlite_round_trip(buf: Seq<u8>, pos: int, v: nat)
    requires
        0 <= pos <= buf.len(),
    ensures
        is_lesqlite_at(write_seq(buf, pos, lesqlite(v)), pos, v),
{
    let written = write_seq(buf, pos, lesqlite(v));
    assert(written.subrange(pos, pos + lesqlite(v).len() as int) =~= lesqlite(v));
}

/// Reads the head of an encoding found at `pos`: the first byte tells which
/// of the three forms follows and, for the tagged form, how many raw bytes.
pub proof fn lemma_lesqlite_first(s: Seq<u8>, pos: int, v: nat)
    requires
        v <= u64::MAX,
        is_lesqlite_at(s, pos, v),
    ensures
        pos < s.len(),
        v < 185 ==> s[pos] == v as u8 && s[pos] < 185,
        185 <= v <= 16568 ==> {
            &&& 185 <= s[pos] < 249
            &&& pos + 2 <= s.len()
            &&& s[pos] == (185 + (v - 185) / 256) as u8
            &&& s[pos + 1] == ((v - 185) % 256) as u8
        },
        v > 16568 ==> {
            &&& 249 <= s[pos]
            &&& byte_len(v) == (s[pos] - 249) + 2
            &&& pos + 1 + byte_len(v) <= s.len()
            &&& forall|i: int|
                0 <= i < byte_len(v) ==> s[pos + 1 + i] == le_bytes(v, byte_len(v))[i]
        },
{
    lemma_lesqlite_len(v);
    lemma_byte_len_u64(v);
    lemma_byte_len_pow(v);
    let enc = lesqlite(v);
    assert(s.subrange(pos, pos + enc.len() as int)[0] == s[pos]);
    if 185 <= v <= 16568 {
        assert(s.subrange(pos, pos + enc.len() as int)[1] == s[pos + 1]);
    }
    if v > 16568 {
        lemma_le_bytes_len(v, byte_len(v));
        assert forall|i: int| 0 <= i < byte_len(v) implies s[pos + 1 + i] == le_bytes(
            v,
            byte_len(v),
        )[i] by {
            assert(s.subrange(pos, pos + enc.len() as int)[i + 1] == s[pos + 1 + i]);
        }
    }
}

/// Writes the lesqlite encoding of `value` at `start_position`: one literal
/// byte below the first cut, a biased big-endian pair up to the two-byte
/// maximum, and otherwise a tag byte followed by the value's raw bytes,
/// flushed with the chosen positioned-write code path.
pub fn write_lesqlite(
    out: &mut Vec<u8>,
    start_position: usize,
    value: u64,
    strategy: WriteStrategy,
) -> (n: usize)
    requires
        start_position <= old(out).len(),
        start_position + 9 <= usize::MAX,
    ensures
        final(out)@ == write_seq(old(out)@, start_position as int, lesqlite(value as nat)),
        n == lesqlite(value as nat).len(),
{
    let ghost buf0 = out@;
    let ghost pos0 = start_position as int;
    proof {
        lemma_lesqlite_len(value as nat);
    }
    if value < LESQLITE_CUT1 {
        write_to_vec(out, start_position, value as u8);
        proof {
            lemma_write_seq_singleton(buf0, pos0, value as u8);
            assert(lesqlite(value as nat) =~= seq![value as u8]);
        }
        1
    } else if value <= LESQLITE_TWO_BYTE_MAX {
        let d = value - LESQLITE_CUT1;
        proof {
            assert(d >> 8 == d / 256) by (bit_vector);
        }
        let b0 = (LESQLITE_CUT1 + (d >> 8)) as u8;
        let b1 = (d % 256) as u8;
        write_to_vec(out, start_position, b0);
        let ghost buf1 = out@;
        write_to_vec(out, start_position + 1, b1);
        proof {
            lemma_write_seq_singleton(buf0, pos0, b0);
            lemma_write_seq_singleton(buf1, pos0 + 1, b1);
            lemma_write_seq_concat(buf0, pos0, seq![b0], seq![b1]);
            assert(seq![b0].add(seq![b1]) =~= lesqlite(value as nat));
        }
        2
    } else {
        proof {
            lemma_byte_len_u64(value as nat);
            lemma_byte_len_pow(value as nat);
        }
        let mut t = value;
        let mut nb: usize = 0;
        while t > 0
            invariant
                t > 0 ==> byte_len(value as nat) == nb + byte_len(t as nat),
                t == 0 ==> byte_len(value as nat) == nb,
                nb <= byte_len(value as nat),
                byte_len(value as nat) <= 8,
            decreases t,
        {
            t = t / 256;
            nb = nb + 1;
        }
        let tag = (LESQLITE_CUT2 + (nb as u64 - 2)) as u8;
        write_to_vec(out, start_position, tag);
        let ghost buf1 = out@;
        let written = write_raw_le(out, start_position + 1, value as u128, nb, strategy);
        proof {
            lemma_write_seq_singleton(buf0, pos0, tag);
            lemma_write_seq_concat(buf0, pos0, seq![tag], le_bytes(value as nat, nb as nat));
            lemma_le_bytes_len(value as nat, nb as nat);
            assert(seq![tag].add(le_bytes(value as nat, nb as nat)) =~= lesqlite(value as nat));
        }
        1 + written
    }
}

/// Decodes the value whose lesqlite encoding starts at `start_position`,
/// following the cut-point logic in reverse: a literal byte, a biased pair,
/// or a tag byte announcing how many raw little-endian bytes to read.
pub fn read_lesqlite(data: &[u8], start_position: usize) -> (r: (u64, usize))
    requires
        exists|v: nat| v <= u64::MAX && is_lesqlite_at(data@, start_position as int, v),
    ensures
        is_lesqlite_at(data@, start_position as int, r.0 as nat),
        r.1 == lesqlite(r.0 as nat).len(),
        forall|v: nat|
            v <= u64::MAX && is_lesqlite_at(data@, start_position as int, v) ==> v == r.0 as nat,
{
    let ghost big_v: nat = choose|v: nat|
        v <= u64::MAX && is_lesqlite_at(data@, start_position as int, v);
    let ghost pos0 = start_position as int;
    proof {
        lemma_lesqlite_len(big_v);
        lemma_lesqlite_first(data@, pos0, big_v);
        vstd::slice::axiom_spec_len(data);
        assert forall|v: nat|
            v <= u64::MAX && is_lesqlite_at(data@, pos0, v) implies v == big_v by {
            lemma_lesqlite_at_unique(data@, pos0, v, big_v);
        }
    }
    let b0 = *vstd::slice::slice_index_get(data, start_position);
    if b0 < 185 {
        proof {
            assert(big_v < 185);
            assert(b0 as nat == big_v);
        }
        (b0 as u64, 1)
    } else if b0 < 249 {
        proof {
            assert(185 <= big_v <= 16568);
        }
        let b1 = *vstd::slice::slice_index_get(data, start_position + 1);
        let value = LESQLITE_CUT1 + (b0 as u64 - 185) * 256 + b1 as u64;
        proof {
            lemma_fundamental_div_mod((big_v - 185) as int, 256);
            assert(value as nat == big_v);
        }
        (value, 2)
    } else {
        proof {
            assert(big_v > 16568);
        }
        let nb = (b0 - 249) as usize + 2;
        let ghost tail = le_bytes(big_v, nb as nat);
        proof {
            lemma_le_bytes_len(big_v, nb as nat);
            lemma_byte_len_pow(big_v);
            vstd::arithmetic::power2::lemma2_to64_rest();
            crate::raw::lemma_le_value_bound(tail);
            lemma_le_value_of_le_bytes(big_v, nb as nat);
            lemma2_to64();
            assert(tail.skip(nb as int) =~= Seq::<u8>::empty());
        }
        let mut val: u64 = 0;
        let mut j = nb;
        while j > 0
            invariant
                pos0 == start_position as int,
                big_v <= u64::MAX,
                big_v > 16568,
                is_lesqlite_at(data@, pos0, big_v),
                nb == byte_len(big_v),
                2 <= nb <= 8,
                tail == le_bytes(big_v, nb as nat),
                tail.len() == nb,
                pos0 + 1 + nb <= data@.len(),
                data@.len() <= usize::MAX,
                forall|i: int| 0 <= i < nb ==> data@[pos0 + 1 + i] == tail[i],
                j <= nb,
                val as nat == le_value(tail.skip(j as int)),
                (val as nat) < pow2(8 * ((nb - j) as nat)),
            decreases j,
        {
            j = j - 1;
            let byte = *vstd::slice::slice_index_get(data, start_position + 1 + j);
            proof {
                assert(tail.skip(j as int)[0] == tail[j as int]);
                assert(tail.skip(j as int).skip(1) =~= tail.skip(j + 1));
                lemma_pow2_adds(8, (8 * ((nb - j - 1)) as nat));
                lemma2_to64();
                vstd::arithmetic::power2::lemma2_to64_rest();
                assert(val * 256 + byte < 256 * pow2((8 * ((nb - j - 1))) as nat))
                    by (nonlinear_arith)
                    requires
                        (val as nat) < pow2((8 * ((nb - j - 1))) as nat),
                        byte < 256,
                ;
                assert(pow2((8 * ((nb - j))) as nat) <= pow2(64)) by {
                    if (nb - j) < 8 {
                        lemma_pow2_strictly_increases((8 * ((nb - j))) as nat, 64);
                    }
                }
            }
            val = val * 256 + byte as u64;
        }
        proof {
            assert(tail.skip(0) =~= tail);
            assert(val as nat == big_v);
        }
        (val, 1 + nb)
    }
}

} // verus!
