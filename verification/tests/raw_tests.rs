use varint_codec::raw::{write_raw_le, write_raw_le_shift, write_raw_le_signed};
use varint_codec::writer::WriteStrategy;

const STRATEGIES: [WriteStrategy; 3] =
    [WriteStrategy::Solo, WriteStrategy::Split, WriteStrategy::Skewed];

#[test]
fn raw_u32_little_endian() {
    for strategy in STRATEGIES {
        let mut out = Vec::new();
        let n = write_raw_le(&mut out, 0, 0x12345678, 4, strategy);
        assert_eq!(n, 4);
        assert_eq!(out, vec![0x78, 0x56, 0x34, 0x12]);
    }
}

#[test]
fn raw_widths_write_exact_sizes() {
    let mut out = Vec::new();
    assert_eq!(write_raw_le(&mut out, 0, 0xAB, 1, WriteStrategy::Skewed), 1);
    assert_eq!(out, vec![0xAB]);

    let mut out = Vec::new();
    assert_eq!(write_raw_le(&mut out, 0, 0x1234, 2, WriteStrategy::Skewed), 2);
    assert_eq!(out, vec![0x34, 0x12]);

    let mut out = Vec::new();
    assert_eq!(write_raw_le(&mut out, 0, 1, 16, WriteStrategy::Skewed), 16);
    let mut expected = vec![0u8; 16];
    expected[0] = 1;
    assert_eq!(out, expected);
}

#[test]
fn raw_shift_variant_matches_bulk() {
    let values: [u128; 4] = [0, 0x12345678, u64::MAX as u128, u128::MAX];
    for value in values {
        for size in [1usize, 2, 4, 8, 16] {
            let mut bulk = Vec::new();
            write_raw_le(&mut bulk, 0, value, size, WriteStrategy::Split);
            let mut shifted = Vec::new();
            let n = write_raw_le_shift(&mut shifted, 0, value, size);
            assert_eq!(n, size);
            assert_eq!(shifted, bulk);
        }
    }
}

#[test]
fn raw_signed_two_complement() {
    let mut out = Vec::new();
    let n = write_raw_le_signed(&mut out, 0, -1, 2, WriteStrategy::Skewed);
    assert_eq!(n, 2);
    assert_eq!(out, vec![0xFF, 0xFF]);

    let mut out = Vec::new();
    write_raw_le_signed(&mut out, 0, -2, 4, WriteStrategy::Split);
    assert_eq!(out, vec![0xFE, 0xFF, 0xFF, 0xFF]);

    let mut out = Vec::new();
    write_raw_le_signed(&mut out, 0, 0x1234, 2, WriteStrategy::Solo);
    assert_eq!(out, vec![0x34, 0x12]);
}

#[test]
fn raw_write_overwrites_in_place() {
    let mut out = vec![1u8, 2, 3, 4, 5];
    let n = write_raw_le(&mut out, 1, 0xAABB, 2, WriteStrategy::Solo);
    assert_eq!(n, 2);
    assert_eq!(out, vec![1, 0xBB, 0xAA, 4, 5]);
}
