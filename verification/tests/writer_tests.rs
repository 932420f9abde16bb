use varint_codec::writer::{
    write_slice_to_vec, write_slice_to_vec_cold, write_slice_to_vec_skewed, write_slice_with,
    write_to_vec, write_to_vec_solo, WriteStrategy,
};

#[test]
fn write_to_vec_appends_at_end() {
    let mut v = vec![1u8, 2, 3];
    write_to_vec(&mut v, 3, 9);
    assert_eq!(v, vec![1, 2, 3, 9]);
}

#[test]
fn write_to_vec_overwrites_inside() {
    let mut v = vec![1u8, 2, 3];
    write_to_vec(&mut v, 1, 9);
    assert_eq!(v, vec![1, 9, 3]);
}

#[test]
fn solo_writer_overwrites_and_appends() {
    let mut v = vec![1u8, 2, 3];
    write_to_vec_solo(&mut v, 2, &[7, 8, 9]);
    assert_eq!(v, vec![1, 2, 7, 8, 9]);
}

#[test]
fn split_writer_overwrites_and_appends() {
    let mut v = vec![1u8, 2, 3];
    write_slice_to_vec(&mut v, 2, &[7, 8, 9]);
    assert_eq!(v, vec![1, 2, 7, 8, 9]);
}

#[test]
fn cold_writer_overwrites_and_appends() {
    let mut v = vec![1u8, 2, 3];
    write_slice_to_vec_cold(&mut v, 2, &[7, 8, 9]);
    assert_eq!(v, vec![1, 2, 7, 8, 9]);
}

#[test]
fn skewed_writer_overwrites_and_appends() {
    let mut v = vec![1u8, 2, 3];
    write_slice_to_vec_skewed(&mut v, 2, &[7, 8, 9]);
    assert_eq!(v, vec![1, 2, 7, 8, 9]);

    let mut w = vec![1u8, 2, 3];
    write_slice_to_vec_skewed(&mut w, 3, &[7, 8]);
    assert_eq!(w, vec![1, 2, 3, 7, 8]);
}

#[test]
fn all_writer_variants_agree() {
    let cases: &[(Vec<u8>, usize, Vec<u8>)] = &[
        (vec![], 0, vec![5, 6, 7]),
        (vec![1, 2, 3, 4], 0, vec![9]),
        (vec![1, 2, 3, 4], 2, vec![9, 9, 9, 9]),
        (vec![1, 2, 3, 4], 4, vec![9, 9]),
        (vec![1, 2, 3], 1, vec![]),
    ];
    for (buf, pos, input) in cases {
        let mut a = buf.clone();
        let mut b = buf.clone();
        let mut c = buf.clone();
        write_slice_with(&mut a, *pos, input, WriteStrategy::Solo);
        write_slice_with(&mut b, *pos, input, WriteStrategy::Split);
        write_slice_with(&mut c, *pos, input, WriteStrategy::Skewed);
        assert_eq!(a, b);
        assert_eq!(b, c);
    }
}

#[test]
fn writer_overwrite_matches_append() {
    let base = vec![4u8, 5];
    let input = [6u8, 7, 8];

    let mut appended = base.clone();
    write_slice_to_vec(&mut appended, 2, &input);

    let mut pre_extended = base.clone();
    pre_extended.extend_from_slice(&input);
    write_slice_to_vec(&mut pre_extended, 2, &input);

    assert_eq!(appended, pre_extended);
}
