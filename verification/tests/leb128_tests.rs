use varint_codec::leb128::{
    read_leb128, read_leb128_u128, read_leb128_u16, read_leb128_u32, read_leb128_u64,
    read_leb128_usize, read_leb128_fixed, read_leb128_weird, read_unsigned_leb128_ref,
    write_leb128, write_leb128_callback, write_leb128_fixed, write_leb128_ref,
    write_leb128_reserved, write_leb128_u128, write_leb128_u16, write_leb128_u32,
    write_leb128_u64, write_leb128_usize, write_unsigned_leb128_to, ByteSink, DecodeStrategy,
    EncodeStrategy, VecSink, MAX_LEB128_LEN_U128,
};

const ENCODERS: [EncodeStrategy; 4] = [
    EncodeStrategy::Reference,
    EncodeStrategy::Fixed,
    EncodeStrategy::Callback,
    EncodeStrategy::Reserved,
];

const DECODERS: [DecodeStrategy; 3] = [
    DecodeStrategy::Reference,
    DecodeStrategy::Fixed,
    DecodeStrategy::BranchFree,
];

fn encode_u128(value: u128, strategy: EncodeStrategy) -> (Vec<u8>, usize) {
    let mut out = Vec::new();
    let n = write_leb128_u128(&mut out, 0, value, strategy);
    (out, n)
}

#[test]
fn zero_encodes_as_single_zero_byte() {
    for strategy in ENCODERS {
        let (out, n) = encode_u128(0, strategy);
        assert_eq!(out, vec![0x00]);
        assert_eq!(n, 1);
    }
}

#[test]
fn value_127_encodes_as_one_byte() {
    for strategy in ENCODERS {
        let (out, n) = encode_u128(127, strategy);
        assert_eq!(out, vec![0x7F]);
        assert_eq!(n, 1);
    }
}

#[test]
fn value_128_encodes_as_two_bytes() {
    for strategy in ENCODERS {
        let (out, n) = encode_u128(128, strategy);
        assert_eq!(out, vec![0x80, 0x01]);
        assert_eq!(n, 2);
    }
}

#[test]
fn width_maxima_use_statically_known_byte_counts() {
    for strategy in ENCODERS {
        let mut out = Vec::new();
        assert_eq!(write_leb128_u16(&mut out, 0, u16::MAX, strategy), 3);
        let mut out = Vec::new();
        assert_eq!(write_leb128_u32(&mut out, 0, u32::MAX, strategy), 5);
        let mut out = Vec::new();
        assert_eq!(write_leb128_u64(&mut out, 0, u64::MAX, strategy), 10);
        let mut out = Vec::new();
        assert_eq!(write_leb128_u128(&mut out, 0, u128::MAX, strategy), 19);
    }
    let (out, n) = encode_u128(u128::MAX, EncodeStrategy::Fixed);
    assert_eq!(n, 19);
    assert_eq!(out.len(), 19);
    assert_eq!(out[18], 0x03);
    let mut out16 = Vec::new();
    write_leb128_u16(&mut out16, 0, u16::MAX, EncodeStrategy::Reference);
    assert_eq!(out16, vec![0xFF, 0xFF, 0x03]);
}

#[test]
fn scenario_u32_300_fixed_iteration() {
    let mut out = Vec::new();
    let n = write_leb128_u32(&mut out, 0, 300, EncodeStrategy::Fixed);
    assert_eq!(out, vec![0xAC, 0x02]);
    assert_eq!(n, 2);
    for strategy in DECODERS {
        let (value, read) = read_leb128_u32(&out, 0, strategy);
        assert_eq!((value, read), (300, 2));
    }
}

#[test]
fn encoder_strategies_agree_byte_for_byte() {
    let values: [u128; 10] =
        [0, 1, 127, 128, 300, 16383, 16384, 1 << 35, u64::MAX as u128, u128::MAX];
    for value in values {
        let (reference, n) = encode_u128(value, EncodeStrategy::Reference);
        for strategy in ENCODERS {
            let (out, m) = encode_u128(value, strategy);
            assert_eq!(out, reference);
            assert_eq!(m, n);
        }
    }
}

#[test]
fn decoder_strategies_agree_on_any_valid_encoding() {
    let values: [u128; 8] = [0, 1, 127, 128, 300, 16384, u64::MAX as u128, u128::MAX];
    for value in values {
        let (encoded, n) = encode_u128(value, EncodeStrategy::Reference);
        let reference = read_unsigned_leb128_ref(&encoded, 0);
        let fixed = read_leb128_fixed(&encoded, 0, MAX_LEB128_LEN_U128);
        let weird = read_leb128_weird(&encoded, 0, MAX_LEB128_LEN_U128);
        assert_eq!(reference, (value, n));
        assert_eq!(fixed, reference);
        assert_eq!(weird, reference);
    }
}

#[test]
fn round_trip_every_strategy_pair() {
    let values: [u128; 9] = [0, 1, 127, 128, 255, 300, 65535, u64::MAX as u128, u128::MAX];
    for value in values {
        for enc in ENCODERS {
            let mut out = Vec::new();
            let n = write_leb128(&mut out, 0, value, MAX_LEB128_LEN_U128, enc);
            for dec in DECODERS {
                let (decoded, read) = read_leb128(&out, 0, MAX_LEB128_LEN_U128, dec);
                assert_eq!(decoded, value);
                assert_eq!(read, n);
            }
        }
    }
}

#[test]
fn encoded_length_is_minimal() {
    let values: [u128; 12] = [
        0,
        1,
        127,
        128,
        16383,
        16384,
        2097151,
        2097152,
        u32::MAX as u128,
        u64::MAX as u128,
        (1u128 << 126),
        u128::MAX,
    ];
    for value in values {
        let bit_length = (128 - value.leading_zeros()) as usize;
        let expected = std::cmp::max(1, (bit_length + 6) / 7);
        let (_, n) = encode_u128(value, EncodeStrategy::Fixed);
        assert_eq!(n, expected);
    }
}

#[test]
fn overwrite_matches_append() {
    for enc in ENCODERS {
        let base = vec![9u8, 9];

        let mut appended = base.clone();
        let n = write_leb128(&mut appended, 2, 300, MAX_LEB128_LEN_U128, enc);

        let mut pre_extended = base.clone();
        pre_extended.extend_from_slice(&appended[2..2 + n]);
        let m = write_leb128(&mut pre_extended, 2, 300, MAX_LEB128_LEN_U128, enc);

        assert_eq!(n, m);
        assert_eq!(appended, pre_extended);
    }
}

#[test]
fn overwrite_keeps_surrounding_bytes() {
    for enc in ENCODERS {
        let mut buf = vec![1u8, 2, 3, 4, 5, 6];
        let n = write_leb128(&mut buf, 2, 300, MAX_LEB128_LEN_U128, enc);
        assert_eq!(n, 2);
        assert_eq!(buf, vec![1, 2, 0xAC, 0x02, 5, 6]);
    }
}

#[test]
fn callback_sink_writes_through_offset() {
    let mut sink = VecSink { buf: vec![1, 2, 3], start: 1 };
    let n = write_unsigned_leb128_to(300, &mut sink);
    assert_eq!(n, 2);
    assert_eq!(sink.buf, vec![1, 0xAC, 0x02]);

    let mut buf = vec![7u8];
    let m = write_leb128_callback(&mut buf, 1, 1);
    assert_eq!(m, 1);
    assert_eq!(buf, vec![7, 1]);
}

#[test]
fn byte_sink_trait_is_callable_through_generics() {
    fn encode_into<W: ByteSink>(value: u128, sink: &mut W) -> usize {
        write_unsigned_leb128_to(value, sink)
    }
    let mut sink = VecSink { buf: Vec::new(), start: 0 };
    assert_eq!(encode_into(128, &mut sink), 2);
    assert_eq!(sink.buf, vec![0x80, 0x01]);
}

#[test]
fn reserved_strategy_handles_partial_overwrite() {
    let mut buf = vec![1u8, 2, 3];
    let n = write_leb128_reserved(&mut buf, 2, 300, MAX_LEB128_LEN_U128);
    assert_eq!(n, 2);
    assert_eq!(buf, vec![1, 2, 0xAC, 0x02]);
}

#[test]
fn plain_strategy_functions_match_dispatch() {
    let value = 1_000_000u128;
    let (reference, n) = encode_u128(value, EncodeStrategy::Reference);
    let mut a = Vec::new();
    assert_eq!(write_leb128_ref(&mut a, 0, value), n);
    let mut b = Vec::new();
    assert_eq!(write_leb128_fixed(&mut b, 0, value, MAX_LEB128_LEN_U128), n);
    let mut c = Vec::new();
    assert_eq!(write_leb128_callback(&mut c, 0, value), n);
    let mut d = Vec::new();
    assert_eq!(write_leb128_reserved(&mut d, 0, value, MAX_LEB128_LEN_U128), n);
    assert_eq!(a, reference);
    assert_eq!(b, reference);
    assert_eq!(c, reference);
    assert_eq!(d, reference);
}

#[test]
fn sequential_values_decode_in_order() {
    let values: [u64; 5] = [3, 300, 70000, u64::MAX, 0];
    for enc in ENCODERS {
        let mut buf = Vec::new();
        let mut position = 0;
        for value in values {
            position += write_leb128_u64(&mut buf, position, value, enc);
        }
        for dec in DECODERS {
            let mut read_position = 0;
            for value in values {
                let (decoded, read) = read_leb128_u64(&buf, read_position, dec);
                assert_eq!(decoded, value);
                read_position += read;
            }
            assert_eq!(read_position, position);
        }
    }
}

#[test]
fn width_wrappers_round_trip() {
    let mut out = Vec::new();
    let n = write_leb128_u16(&mut out, 0, 40000, EncodeStrategy::Callback);
    assert_eq!(read_leb128_u16(&out, 0, DecodeStrategy::Fixed), (40000, n));

    let mut out = Vec::new();
    let n = write_leb128_usize(&mut out, 0, usize::MAX, EncodeStrategy::Reserved);
    assert_eq!(read_leb128_usize(&out, 0, DecodeStrategy::BranchFree), (usize::MAX, n));

    let mut out = Vec::new();
    let n = write_leb128_u128(&mut out, 0, 1 << 100, EncodeStrategy::Fixed);
    assert_eq!(read_leb128_u128(&out, 0, DecodeStrategy::Reference), (1 << 100, n));
}

#[test]
fn decoding_starts_at_the_given_position() {
    let mut buf = vec![0xFFu8, 0xFF];
    let n = write_leb128_u32(&mut buf, 2, 300, EncodeStrategy::Reference);
    assert_eq!(n, 2);
    for dec in DECODERS {
        assert_eq!(read_leb128_u32(&buf, 2, dec), (300, 2));
    }
}
