use varint_codec::lesqlite::{read_lesqlite, write_lesqlite};
use varint_codec::writer::WriteStrategy;

fn encode(value: u64) -> (Vec<u8>, usize) {
    let mut out = Vec::new();
    let n = write_lesqlite(&mut out, 0, value, WriteStrategy::Skewed);
    (out, n)
}

#[test]
fn lesqlite_value_184_is_one_literal_byte() {
    let (out, n) = encode(184);
    assert_eq!(out, vec![0xB8]);
    assert_eq!(n, 1);
}

#[test]
fn lesqlite_value_185_takes_two_bytes() {
    let (out, n) = encode(185);
    assert_eq!(out, vec![0xB9, 0x00]);
    assert_eq!(n, 2);
}

#[test]
fn lesqlite_two_byte_maximum() {
    let (out, n) = encode(16568);
    assert_eq!(out, vec![0xF8, 0xFF]);
    assert_eq!(n, 2);
}

#[test]
fn lesqlite_first_tagged_value_uses_base_tag() {
    let (out, n) = encode(16569);
    assert_eq!(out[0], 249);
    assert_eq!(out, vec![0xF9, 0xB9, 0x40]);
    assert_eq!(n, 3);
}

#[test]
fn lesqlite_zero_is_one_byte() {
    let (out, n) = encode(0);
    assert_eq!(out, vec![0x00]);
    assert_eq!(n, 1);
}

#[test]
fn lesqlite_u64_max_uses_highest_tag() {
    let (out, n) = encode(u64::MAX);
    assert_eq!(n, 9);
    assert_eq!(out[0], 255);
    assert_eq!(&out[1..], &[0xFF; 8]);
}

#[test]
fn lesqlite_round_trip() {
    let values: [u64; 12] =
        [0, 1, 184, 185, 255, 256, 16568, 16569, 65535, 65536, 1 << 40, u64::MAX];
    for value in values {
        let (out, n) = encode(value);
        let (decoded, read) = read_lesqlite(&out, 0);
        assert_eq!(decoded, value);
        assert_eq!(read, n);
    }
}

#[test]
fn lesqlite_write_strategies_agree() {
    let values: [u64; 5] = [7, 200, 16568, 70000, u64::MAX];
    for value in values {
        let mut solo = vec![1u8, 2];
        let mut split = vec![1u8, 2];
        let mut skewed = vec![1u8, 2];
        let n = write_lesqlite(&mut solo, 1, value, WriteStrategy::Solo);
        let m = write_lesqlite(&mut split, 1, value, WriteStrategy::Split);
        let k = write_lesqlite(&mut skewed, 1, value, WriteStrategy::Skewed);
        assert_eq!(n, m);
        assert_eq!(m, k);
        assert_eq!(solo, split);
        assert_eq!(split, skewed);
    }
}

#[test]
fn lesqlite_decodes_at_position() {
    let mut buf = vec![9u8, 9, 9];
    let n = write_lesqlite(&mut buf, 3, 16569, WriteStrategy::Split);
    let (decoded, read) = read_lesqlite(&buf, 3);
    assert_eq!(decoded, 16569);
    assert_eq!(read, n);
}
